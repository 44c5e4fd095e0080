use vstd::prelude::*;

use crate::game::{
    lemma_move_piece_ok, lemma_possible_moves_ok, move_ok, rest_moves, spec_move_piece,
    spec_player_at, spec_possible_moves, spec_remove_move_source, spec_source, spec_step_rel,
    GameState, Move, Player, Roll, TeamState, GOAL_SCORE,
};
use crate::strip::{
    bit_set, lemma_bit_clear, lemma_bit_or, lemma_count_bits_bounds, lemma_end_update,
    lemma_nibble_eq_from_bits, lemma_nibble_gt_from_bits, lemma_nibble_update,
    spec_apply_delta_source, spec_square, Delta, DeltaResult, MoveSource, Square, StripIndex,
    StripState,
};
use vstd::arithmetic::div_mod::lemma_fundamental_div_mod_converse;

verus! {

/// The part of one team that the layer key keeps: its score and the two
/// private exit squares.
#[derive(Debug, Clone, PartialEq, Eq, PartialOrd, Ord, Hash, Copy, Structural)]
pub struct PermaTeamKey {
    pub score: u8,
    pub strip_end: u8,
}

pub open spec fn spec_team_key(t: TeamState) -> PermaTeamKey {
    PermaTeamKey { score: t.score, strip_end: ((t.strip.0 >> 12) & 3) as u8 }
}

impl PermaTeamKey {
    pub fn new(team: TeamState) -> (r: Self)
        ensures
            r == spec_team_key(team),
    {
        let strip_end = team.strip.end_bits();
        Self { score: team.score, strip_end }
    }
}

/// What the layer key focuses on: the private launch squares when the shared
/// region is empty, else the highest occupied shared square.
#[derive(Debug, Clone, PartialEq, Eq, Hash, Copy, Structural)]
pub enum FocusToken {
    Start { strip_start_gt: u8, strip_start_lt: u8 },
    Shared(StripIndex),
}

/// The focus token, together with whether the highest occupied square is the
/// shared flower at square 7 (which then defers to the next-highest square).
#[derive(Debug, Clone, PartialEq, Eq, Hash, Copy, Structural)]
pub struct MaxToken {
    pub focus_token: FocusToken,
    pub max_is_flower: bool,
}

/// The highest index below `n` occupied by either strip, or -1 when none is.
pub open spec fn spec_highest(p: u16, o: u16, n: int) -> int
    decreases n,
{
    if n <= 0 {
        -1
    } else if bit_set(p, (n - 1) as u8) || bit_set(o, (n - 1) as u8) {
        n - 1
    } else {
        spec_highest(p, o, n - 1)
    }
}

/// The token of a position whose combined occupancy is given by the two
/// strips, carrying the sorted teams' launch nibbles.
pub open spec fn spec_max_token(p: u16, o: u16, start_gt: u8, start_lt: u8) -> MaxToken {
    let h = spec_highest(p, o, 12);
    if h < 4 {
        MaxToken {
            focus_token: FocusToken::Start { strip_start_gt: start_gt, strip_start_lt: start_lt },
            max_is_flower: false,
        }
    } else if h == 7 {
        let h2 = spec_highest(p, o, 7);
        MaxToken {
            focus_token: if h2 < 4 {
                FocusToken::Start { strip_start_gt: start_gt, strip_start_lt: start_lt }
            } else {
                FocusToken::Shared(StripIndex(h2 as u8))
            },
            max_is_flower: true,
        }
    } else {
        MaxToken { focus_token: FocusToken::Shared(StripIndex(h as u8)), max_is_flower: false }
    }
}

/// Highest occupancy does not care which team holds a square.
pub proof fn lemma_highest_symmetric(p: u16, o: u16, n: int)
    ensures
        spec_highest(p, o, n) == spec_highest(o, p, n),
    decreases n,
{
    if n > 0 {
        lemma_highest_symmetric(p, o, n - 1);
    }
}

/// The highest occupied index below `n` over both strips, if any.
fn highest_below(p: StripState, o: StripState, n: u8) -> (r: Option<u8>)
    requires
        n <= 12,
    ensures
        r == (if spec_highest(p.0, o.0, n as int) < 0 {
            None::<u8>
        } else {
            Some(spec_highest(p.0, o.0, n as int) as u8)
        }),
        -1 <= spec_highest(p.0, o.0, n as int) < n as int,
{
    proof {
        lemma_highest_bound(p.0, o.0, n as int);
    }
    let mut i: u8 = n;
    while i > 0
        invariant
            i <= n <= 12,
            spec_highest(p.0, o.0, n as int) == spec_highest(p.0, o.0, i as int),
        decreases i,
    {
        let j = i - 1;
        if p.get(StripIndex(j)) || o.get(StripIndex(j)) {
            return Some(j);
        }
        i = j;
    }
    None
}

impl MaxToken {
    pub fn new(prot_strip: StripState, opp_strip: StripState, strip_start_gt: u8, strip_start_lt: u8) -> (r: Self)
        ensures
            r == spec_max_token(prot_strip.0, opp_strip.0, strip_start_gt, strip_start_lt),
    {
        match highest_below(prot_strip, opp_strip, 12) {
            None => MaxToken {
                focus_token: FocusToken::Start { strip_start_gt, strip_start_lt },
                max_is_flower: false,
            },
            Some(h) => {
                if h < 4 {
                    MaxToken {
                        focus_token: FocusToken::Start { strip_start_gt, strip_start_lt },
                        max_is_flower: false,
                    }
                } else if h == 7 {
                    let focus_token = match highest_below(prot_strip, opp_strip, 7) {
                        None => FocusToken::Start { strip_start_gt, strip_start_lt },
                        Some(h2) => {
                            if h2 < 4 {
                                FocusToken::Start { strip_start_gt, strip_start_lt }
                            } else {
                                FocusToken::Shared(StripIndex(h2))
                            }
                        },
                    };
                    MaxToken { focus_token, max_is_flower: true }
                } else {
                    MaxToken {
                        focus_token: FocusToken::Shared(StripIndex(h)),
                        max_is_flower: false,
                    }
                }
            },
        }
    }
}

/// The key that names a value-iteration layer: the two teams ordered by
/// (score, exit squares, launch squares), plus the focus token.
#[derive(Debug, Clone, PartialEq, Eq, Hash, Copy, Structural)]
pub struct PermaKey {
    pub team_gt: PermaTeamKey,
    pub team_lt: PermaTeamKey,
    pub max_token: MaxToken,
}

/// The ordering weight of one team: score first, then exit squares, then
/// launch squares.
pub open spec fn spec_team_rank(t: TeamState) -> int {
    (t.score as int) * 64 + (((t.strip.0 >> 12) & 3) as int) * 16 + ((t.strip.0 & 0xF) as int)
}

pub open spec fn spec_perma_key(g: GameState) -> PermaKey {
    let sp = (g.prot.strip.0 & 0xF) as u8;
    let so = (g.opp.strip.0 & 0xF) as u8;
    if spec_team_rank(g.prot) > spec_team_rank(g.opp) {
        PermaKey {
            team_gt: spec_team_key(g.prot),
            team_lt: spec_team_key(g.opp),
            max_token: spec_max_token(g.prot.strip.0, g.opp.strip.0, sp, so),
        }
    } else {
        PermaKey {
            team_gt: spec_team_key(g.opp),
            team_lt: spec_team_key(g.prot),
            max_token: spec_max_token(g.prot.strip.0, g.opp.strip.0, so, sp),
        }
    }
}

/// Layer `other` can reach layer `self` in a single move: one team's score
/// may rise by one point, nothing else about the scores may change.
pub open spec fn spec_reachable(a: PermaKey, b: PermaKey) -> bool {
    let dg = a.team_gt.score as int - b.team_gt.score as int;
    let dl = a.team_lt.score as int - b.team_lt.score as int;
    (dg == 0 && dl == 0) || (dg == 1 && dl == 0) || (dg == 0 && dl == 1)
}

impl PermaKey {
    pub fn new(game: GameState) -> (r: Self)
        ensures
            r == spec_perma_key(game),
    {
        let prot_key = PermaTeamKey::new(game.prot);
        let opp_key = PermaTeamKey::new(game.opp);
        let sp = game.prot.strip.start_bits();
        let so = game.opp.strip.start_bits();
        let rank_p: u32 = (prot_key.score as u32) * 64 + (prot_key.strip_end as u32) * 16
            + sp as u32;
        let rank_o: u32 = (opp_key.score as u32) * 64 + (opp_key.strip_end as u32) * 16
            + so as u32;
        proof {
            let xp = game.prot.strip.0;
            let xo = game.opp.strip.0;
            assert(((xp >> 12) & 3) < 4 && (xp & 0xF) < 16) by (bit_vector);
            assert(((xo >> 12) & 3) < 4 && (xo & 0xF) < 16) by (bit_vector);
        }
        if rank_p > rank_o {
            PermaKey {
                team_gt: prot_key,
                team_lt: opp_key,
                max_token: MaxToken::new(game.prot.strip, game.opp.strip, sp, so),
            }
        } else {
            PermaKey {
                team_gt: opp_key,
                team_lt: prot_key,
                max_token: MaxToken::new(game.prot.strip, game.opp.strip, so, sp),
            }
        }
    }

    /// True when a position in layer `other` can turn, in one move, into a
    /// position in layer `self`.
    pub fn reachable_in_one_move_from(&self, other: PermaKey) -> (r: bool)
        ensures
            r == spec_reachable(*self, other),
    {
        if self.team_gt.score >= other.team_gt.score && self.team_lt.score
            >= other.team_lt.score {
            let dg = self.team_gt.score - other.team_gt.score;
            let dl = self.team_lt.score - other.team_lt.score;
            (dg == 0 && dl == 0) || (dg == 1 && dl == 0) || (dg == 0 && dl == 1)
        } else {
            false
        }
    }
}

/// The constraints every key built from a real position satisfies; under
/// them the numeric rank below mirrors the key comparison exactly.
pub open spec fn focus_wf(f: FocusToken) -> bool {
    match f {
        FocusToken::Start { strip_start_gt, strip_start_lt } => strip_start_gt < 16
            && strip_start_lt < 16,
        FocusToken::Shared(i) => 4 <= i.0 <= 11,
    }
}

pub open spec fn token_wf(m: MaxToken) -> bool {
    &&& focus_wf(m.focus_token)
    &&& (m.max_is_flower ==> (m.focus_token matches FocusToken::Shared(i) ==> i.0 < 7))
    &&& (!m.max_is_flower ==> m.focus_token != FocusToken::Shared(StripIndex(7)))
}

pub open spec fn perma_wf(k: PermaKey) -> bool {
    &&& token_wf(k.max_token)
    &&& k.team_gt.score <= 7
    &&& k.team_lt.score <= 7
    &&& k.team_gt.strip_end < 4
    &&& k.team_lt.strip_end < 4
}

/// The ordering weight of a focus token: launch tokens first, then shared
/// squares in ascending order.
pub open spec fn spec_focus_rank(f: FocusToken) -> int {
    match f {
        FocusToken::Start { strip_start_gt, strip_start_lt } => (strip_start_gt as int) * 16
            + strip_start_lt as int,
        FocusToken::Shared(i) => 256 + i.0 as int,
    }
}

/// The ordering weight of a token: a flower-topped token weighs like the
/// shared flower square, with its fallback token breaking ties.
pub open spec fn spec_token_rank(m: MaxToken) -> int {
    (if m.max_is_flower {
        263
    } else {
        spec_focus_rank(m.focus_token)
    }) * 512 + (if m.max_is_flower {
        spec_focus_rank(m.focus_token)
    } else {
        0
    })
}

/// The ordering weight of a layer key. Keys of larger weight are solved
/// first: the solver runs from near-terminal layers back to the opening.
pub open spec fn spec_perma_rank(k: PermaKey) -> int {
    ((((k.team_gt.score as int) * 4 + k.team_gt.strip_end as int) * 8 + k.team_lt.score as int) * 4
        + k.team_lt.strip_end as int) * 0x40000 + spec_token_rank(k.max_token)
}

pub proof fn lemma_token_rank_bounds(m: MaxToken)
    requires
        token_wf(m),
    ensures
        0 <= spec_token_rank(m) < 0x40000,
{
}

/// Focus tokens of equal rank are the same token.
pub proof fn lemma_focus_rank_injective(f1: FocusToken, f2: FocusToken)
    requires
        focus_wf(f1),
        focus_wf(f2),
        spec_focus_rank(f1) == spec_focus_rank(f2),
    ensures
        f1 == f2,
{
    match (f1, f2) {
        (
            FocusToken::Start { strip_start_gt: g1, strip_start_lt: l1 },
            FocusToken::Start { strip_start_gt: g2, strip_start_lt: l2 },
        ) => {
            lemma_fundamental_div_mod_converse(spec_focus_rank(f1), 16, g1 as int, l1 as int);
            lemma_fundamental_div_mod_converse(spec_focus_rank(f2), 16, g2 as int, l2 as int);
        },
        _ => {},
    }
}

/// Well-formed tokens of equal rank are the same token.
pub proof fn lemma_token_rank_injective(m1: MaxToken, m2: MaxToken)
    requires
        token_wf(m1),
        token_wf(m2),
        spec_token_rank(m1) == spec_token_rank(m2),
    ensures
        m1 == m2,
{
    let e1 = if m1.max_is_flower {
        263int
    } else {
        spec_focus_rank(m1.focus_token)
    };
    let s1 = if m1.max_is_flower {
        spec_focus_rank(m1.focus_token)
    } else {
        0int
    };
    let e2 = if m2.max_is_flower {
        263int
    } else {
        spec_focus_rank(m2.focus_token)
    };
    let s2 = if m2.max_is_flower {
        spec_focus_rank(m2.focus_token)
    } else {
        0int
    };
    lemma_fundamental_div_mod_converse(spec_token_rank(m1), 512, e1, s1);
    lemma_fundamental_div_mod_converse(spec_token_rank(m2), 512, e2, s2);
    if m1.max_is_flower == m2.max_is_flower {
        if m1.max_is_flower {
            lemma_focus_rank_injective(m1.focus_token, m2.focus_token);
        } else {
            lemma_focus_rank_injective(m1.focus_token, m2.focus_token);
        }
    } else {
        // A non-flower token would have to carry the shared flower square
        // itself to weigh like a flower token, and that is excluded.
        let nf = if m1.max_is_flower {
            m2
        } else {
            m1
        };
        assert(spec_focus_rank(nf.focus_token) == 263);
        match nf.focus_token {
            FocusToken::Start { strip_start_gt, strip_start_lt } => {
                assert(false);
            },
            FocusToken::Shared(i) => {
                assert(i.0 == 7);
                assert(false);
            },
        }
    }
}

/// The numeric rank orders keys exactly as their fields do: it is injective
/// on well-formed keys.
pub proof fn lemma_perma_rank_injective(a: PermaKey, b: PermaKey)
    requires
        perma_wf(a),
        perma_wf(b),
        spec_perma_rank(a) == spec_perma_rank(b),
    ensures
        a == b,
{
    lemma_token_rank_bounds(a.max_token);
    lemma_token_rank_bounds(b.max_token);
    let ha = (((a.team_gt.score as int) * 4 + a.team_gt.strip_end as int) * 8
        + a.team_lt.score as int) * 4 + a.team_lt.strip_end as int;
    let hb = (((b.team_gt.score as int) * 4 + b.team_gt.strip_end as int) * 8
        + b.team_lt.score as int) * 4 + b.team_lt.strip_end as int;
    lemma_fundamental_div_mod_converse(
        spec_perma_rank(a),
        0x40000,
        ha,
        spec_token_rank(a.max_token),
    );
    lemma_fundamental_div_mod_converse(
        spec_perma_rank(b),
        0x40000,
        hb,
        spec_token_rank(b.max_token),
    );
    lemma_token_rank_injective(a.max_token, b.max_token);
    let qa = ((a.team_gt.score as int) * 4 + a.team_gt.strip_end as int) * 8
        + a.team_lt.score as int;
    let qb = ((b.team_gt.score as int) * 4 + b.team_gt.strip_end as int) * 8
        + b.team_lt.score as int;
    lemma_fundamental_div_mod_converse(ha, 4, qa, a.team_lt.strip_end as int);
    lemma_fundamental_div_mod_converse(hb, 4, qb, b.team_lt.strip_end as int);
    lemma_fundamental_div_mod_converse(
        qa,
        8,
        (a.team_gt.score as int) * 4 + a.team_gt.strip_end as int,
        a.team_lt.score as int,
    );
    lemma_fundamental_div_mod_converse(
        qb,
        8,
        (b.team_gt.score as int) * 4 + b.team_gt.strip_end as int,
        b.team_lt.score as int,
    );
    lemma_fundamental_div_mod_converse(
        (a.team_gt.score as int) * 4 + a.team_gt.strip_end as int,
        4,
        a.team_gt.score as int,
        a.team_gt.strip_end as int,
    );
    lemma_fundamental_div_mod_converse(
        (b.team_gt.score as int) * 4 + b.team_gt.strip_end as int,
        4,
        b.team_gt.score as int,
        b.team_gt.strip_end as int,
    );
}

impl PermaKey {
    /// The key's ordering weight, executable.
    pub fn rank(&self) -> (r: u32)
        requires
            perma_wf(*self),
        ensures
            r as int == spec_perma_rank(*self),
    {
        let focus: u32 = match self.max_token.focus_token {
            FocusToken::Start { strip_start_gt, strip_start_lt } => (strip_start_gt as u32) * 16
                + strip_start_lt as u32,
            FocusToken::Shared(i) => 256 + i.0 as u32,
        };
        let token: u32 = if self.max_token.max_is_flower {
            263 * 512 + focus
        } else {
            focus * 512
        };
        ((((self.team_gt.score as u32) * 4 + self.team_gt.strip_end as u32) * 8
            + self.team_lt.score as u32) * 4 + self.team_lt.strip_end as u32) * 0x40000 + token
    }
}

/// Every key built from a position with well-formed strips is well formed.
pub proof fn lemma_perma_key_wf(g: GameState)
    requires
        g.prot.strip.wf(),
        g.opp.strip.wf(),
        g.prot.score <= 7,
        g.opp.score <= 7,
    ensures
        perma_wf(spec_perma_key(g)),
{
    let p = g.prot.strip.0;
    let o = g.opp.strip.0;
    assert((p & 0xF) < 16 && ((p >> 12) & 3) < 4) by (bit_vector);
    assert((o & 0xF) < 16 && ((o >> 12) & 3) < 4) by (bit_vector);
    lemma_highest_bound(p, o, 12);
    lemma_highest_bound(p, o, 7);
}

proof fn lemma_highest_bound(p: u16, o: u16, n: int)
    requires
        0 <= n,
    ensures
        -1 <= spec_highest(p, o, n) < n,
    decreases n,
{
    if n > 0 {
        lemma_highest_bound(p, o, n - 1);
    }
}

/// The layer key of a position does not depend on which team moves: the key
/// of the flipped position is the same key.
pub proof fn lemma_perma_flip(g: GameState)
    ensures
        spec_perma_key(g.spec_flip()) == spec_perma_key(g),
{
    let p = g.prot.strip.0;
    let o = g.opp.strip.0;
    lemma_highest_symmetric(p, o, 12);
    lemma_highest_symmetric(p, o, 7);
    if spec_team_rank(g.prot) == spec_team_rank(g.opp) {
        let pb = p;
        let ob = o;
        assert((pb & 0xF) < 16 && ((pb >> 12) & 3) < 4) by (bit_vector);
        assert((ob & 0xF) < 16 && ((ob >> 12) & 3) < 4) by (bit_vector);
        assert(spec_team_key(g.prot) == spec_team_key(g.opp));
        assert((p & 0xF) == (o & 0xF));
    }
}

/// What the highest occupied index means, spelled out: it is occupied, it
/// lies below `n`, and nothing above it below `n` is occupied.
pub proof fn lemma_highest_props(p: u16, o: u16, n: int)
    requires
        0 <= n <= 16,
    ensures
        -1 <= spec_highest(p, o, n) < n,
        spec_highest(p, o, n) >= 0 ==> (bit_set(p, spec_highest(p, o, n) as u8) || bit_set(
            o,
            spec_highest(p, o, n) as u8,
        )),
        forall|j: u8|
            (j as int) < n && #[trigger] bit_set(p, j) ==> j as int <= spec_highest(p, o, n),
        forall|j: u8|
            (j as int) < n && #[trigger] bit_set(o, j) ==> j as int <= spec_highest(p, o, n),
    decreases n,
{
    if n > 0 {
        lemma_highest_props(p, o, n - 1);
        assert forall|j: u8| (j as int) < n && #[trigger] bit_set(p, j) implies j as int
            <= spec_highest(p, o, n) by {
            if (j as int) < n - 1 {
                assert(j as int <= spec_highest(p, o, n - 1));
            }
        }
        assert forall|j: u8| (j as int) < n && #[trigger] bit_set(o, j) implies j as int
            <= spec_highest(p, o, n) by {
            if (j as int) < n - 1 {
                assert(j as int <= spec_highest(p, o, n - 1));
            }
        }
    }
}

/// The score-and-exit weight of one team: what the layer order sorts by
/// before it consults the focus token.
pub open spec fn spec_sub_rank(t: TeamState) -> int {
    (t.score as int) * 4 + ((t.strip.0 >> 12) & 3) as int
}

/// The key's team summaries weigh exactly the larger and the smaller of the
/// two teams' score-and-exit weights.
pub proof fn lemma_perma_sub_ranks(g: GameState)
    ensures
        (spec_perma_key(g).team_gt.score as int) * 4 + spec_perma_key(g).team_gt.strip_end as int
            == (if spec_sub_rank(g.prot) >= spec_sub_rank(g.opp) {
            spec_sub_rank(g.prot)
        } else {
            spec_sub_rank(g.opp)
        }),
        (spec_perma_key(g).team_lt.score as int) * 4 + spec_perma_key(g).team_lt.strip_end as int
            == (if spec_sub_rank(g.prot) >= spec_sub_rank(g.opp) {
            spec_sub_rank(g.opp)
        } else {
            spec_sub_rank(g.prot)
        }),
{
    let xp = g.prot.strip.0;
    let xo = g.opp.strip.0;
    assert(((xp >> 12) & 3) < 4 && (xp & 0xF) < 16) by (bit_vector);
    assert(((xo >> 12) & 3) < 4 && (xo & 0xF) < 16) by (bit_vector);
}

/// The sorted scores of a key are the larger and the smaller team score.
pub proof fn lemma_perma_gt_is_max(g: GameState)
    ensures
        spec_perma_key(g).team_gt.score == (if g.prot.score >= g.opp.score {
            g.prot.score
        } else {
            g.opp.score
        }),
        spec_perma_key(g).team_lt.score == (if g.prot.score >= g.opp.score {
            g.opp.score
        } else {
            g.prot.score
        }),
{
    let xp = g.prot.strip.0;
    let xo = g.opp.strip.0;
    assert(((xp >> 12) & 3) < 4 && (xp & 0xF) < 16) by (bit_vector);
    assert(((xo >> 12) & 3) < 4 && (xo & 0xF) < 16) by (bit_vector);
}

/// Every continuation of any roll lands in a layer whose key is reachable in
/// one move from the layer of the position it came from: the mover's score
/// rises by at most one point, so the sorted score pair moves by at most one
/// point on one side.
pub proof fn lemma_successor_layer_order(g: GameState, goal: u8, roll: Roll, i: int)
    requires
        g.wf(goal),
        roll.wf(),
        goal <= GOAL_SCORE,
        0 <= i < spec_possible_moves(g, goal, roll).len(),
    ensures
        spec_possible_moves(g, goal, roll)[i] matches Move::Continue { game: g2, keep_turn }
            ==> spec_reachable(
            spec_perma_key(
                if keep_turn {
                    g2
                } else {
                    g2.spec_flip()
                },
            ),
            spec_perma_key(g),
        ),
{
    lemma_possible_moves_ok(g, goal, roll);
    match spec_possible_moves(g, goal, roll)[i] {
        Move::Continue { game: g2, keep_turn } => {
            assert(move_ok(g, goal, spec_possible_moves(g, goal, roll)[i]));
            lemma_perma_flip(g2);
            lemma_perma_gt_is_max(g2);
            lemma_perma_gt_is_max(g);
        },
        Move::End => {},
    }
}

/// The layer key names exactly the sorted team summaries and the focus
/// token: two positions share a key precisely when those agree.
pub proof fn lemma_perma_key_components(a: GameState, b: GameState)
    ensures
        spec_perma_key(a) == spec_perma_key(b) <==> (spec_sorted_team_keys(a)
            == spec_sorted_team_keys(b) && spec_token_of(a) == spec_token_of(b)),
{
}

/// The two team summaries of a position, larger team first.
pub open spec fn spec_sorted_team_keys(g: GameState) -> (PermaTeamKey, PermaTeamKey) {
    if spec_team_rank(g.prot) > spec_team_rank(g.opp) {
        (spec_team_key(g.prot), spec_team_key(g.opp))
    } else {
        (spec_team_key(g.opp), spec_team_key(g.prot))
    }
}

/// The focus token of a position.
pub open spec fn spec_token_of(g: GameState) -> MaxToken {
    if spec_team_rank(g.prot) > spec_team_rank(g.opp) {
        spec_max_token(
            g.prot.strip.0,
            g.opp.strip.0,
            (g.prot.strip.0 & 0xF) as u8,
            (g.opp.strip.0 & 0xF) as u8,
        )
    } else {
        spec_max_token(
            g.prot.strip.0,
            g.opp.strip.0,
            (g.opp.strip.0 & 0xF) as u8,
            (g.prot.strip.0 & 0xF) as u8,
        )
    }
}


/// The launch-square pack a Start token of this position carries: the two
/// teams' launch nibbles, the higher-ranked team's first.
pub open spec fn spec_start_pack(g: GameState) -> int {
    if spec_team_rank(g.prot) > spec_team_rank(g.opp) {
        ((g.prot.strip.0 & 0xF) as int) * 16 + ((g.opp.strip.0 & 0xF) as int)
    } else {
        ((g.opp.strip.0 & 0xF) as int) * 16 + ((g.prot.strip.0 & 0xF) as int)
    }
}

/// Raising the mover's launch nibble raises the sorted pack, whatever the
/// team order was and becomes, as long as the score-and-exit weights stay.
proof fn lemma_start_pack_monotone(a: GameState, b: GameState)
    requires
        spec_sub_rank(b.prot) == spec_sub_rank(a.prot),
        spec_sub_rank(b.opp) == spec_sub_rank(a.opp),
        (b.prot.strip.0 & 0xF) > (a.prot.strip.0 & 0xF),
        b.opp.strip.0 & 0xF == a.opp.strip.0 & 0xF,
        b.prot.score == a.prot.score,
        b.opp.score == a.opp.score,
    ensures
        spec_start_pack(b) > spec_start_pack(a),
{
    lemma_nibble_update(a.prot.strip.0, 0);
    lemma_nibble_update(a.opp.strip.0, 0);
    lemma_nibble_update(b.prot.strip.0, 0);
    lemma_nibble_update(b.opp.strip.0, 0);
    lemma_end_update(a.prot.strip.0, 0);
    lemma_end_update(a.opp.strip.0, 0);
    lemma_end_update(b.prot.strip.0, 0);
    lemma_end_update(b.opp.strip.0, 0);
    assert(spec_team_rank(a.prot) == spec_sub_rank(a.prot) * 16 + ((a.prot.strip.0 & 0xF) as int));
    assert(spec_team_rank(a.opp) == spec_sub_rank(a.opp) * 16 + ((a.opp.strip.0 & 0xF) as int));
    assert(spec_team_rank(b.prot) == spec_sub_rank(b.prot) * 16 + ((b.prot.strip.0 & 0xF) as int));
    assert(spec_team_rank(b.opp) == spec_sub_rank(b.opp) * 16 + ((b.opp.strip.0 & 0xF) as int));
}

/// The focus-token bounds every real position's key obeys, spelled out for
/// the rank comparisons below.
proof fn lemma_key_token_facts(g: GameState, goal: u8)
    requires
        g.wf(goal),
        goal <= GOAL_SCORE,
    ensures
        perma_wf(spec_perma_key(g)),
        0 <= spec_token_rank(spec_perma_key(g).max_token) < 0x40000,
        0 <= spec_focus_rank(spec_perma_key(g).max_token.focus_token) <= 267,
{
    lemma_count_bits_bounds(g.prot.strip.0, 14);
    lemma_count_bits_bounds(g.opp.strip.0, 14);
    lemma_perma_key_wf(g);
    lemma_token_rank_bounds(spec_perma_key(g).max_token);
}

/// A strictly heavier mover weight, with the opponent untouched, strictly
/// raises the layer rank: the header outweighs any focus token.
proof fn lemma_rank_increases_on_sub(a: GameState, b: GameState, goal: u8)
    requires
        a.wf(goal),
        b.wf(goal),
        goal <= GOAL_SCORE,
        spec_sub_rank(b.prot) > spec_sub_rank(a.prot),
        spec_sub_rank(b.opp) == spec_sub_rank(a.opp),
    ensures
        spec_perma_rank(spec_perma_key(b)) > spec_perma_rank(spec_perma_key(a)),
{
    lemma_perma_sub_ranks(a);
    lemma_perma_sub_ranks(b);
    lemma_key_token_facts(a, goal);
    lemma_key_token_facts(b, goal);
    lemma_end_update(a.prot.strip.0, 0);
    lemma_end_update(a.opp.strip.0, 0);
    lemma_end_update(b.prot.strip.0, 0);
    lemma_end_update(b.opp.strip.0, 0);
    lemma_count_bits_bounds(a.prot.strip.0, 14);
    lemma_count_bits_bounds(a.opp.strip.0, 14);
    lemma_count_bits_bounds(b.prot.strip.0, 14);
    lemma_count_bits_bounds(b.opp.strip.0, 14);
    let ka = spec_perma_key(a);
    let kb = spec_perma_key(b);
    let ha = ((ka.team_gt.score as int) * 4 + ka.team_gt.strip_end as int) * 32 + (
    ka.team_lt.score as int) * 4 + ka.team_lt.strip_end as int;
    let hb = ((kb.team_gt.score as int) * 4 + kb.team_gt.strip_end as int) * 32 + (
    kb.team_lt.score as int) * 4 + kb.team_lt.strip_end as int;
    assert(hb >= ha + 1);
    assert(spec_perma_rank(ka) == ha * 0x40000 + spec_token_rank(ka.max_token));
    assert(spec_perma_rank(kb) == hb * 0x40000 + spec_token_rank(kb.max_token));
}

/// Any continuation of any move leaves the board in the same layer or in an
/// earlier-solved one: across a single move the layer rank never sinks, so a
/// layer's dependencies are always already frozen when it is solved.
pub proof fn lemma_move_rank_monotone(g: GameState, goal: u8, source: MoveSource, d: Delta)
    requires
        g.wf(goal),
        source.wf(),
        d.wf(),
        goal <= GOAL_SCORE,
    ensures
        spec_move_piece(g, goal, source, d) matches Some(Move::Continue { game: g2, keep_turn })
            ==> spec_perma_rank(spec_perma_key(g2)) >= spec_perma_rank(spec_perma_key(g)),
{
    lemma_move_piece_ok(g, goal, source, d);
    lemma_count_bits_bounds(g.prot.strip.0, 14);
    lemma_count_bits_bounds(g.opp.strip.0, 14);
    let p = g.prot.strip.0;
    let o = g.opp.strip.0;
    match spec_remove_move_source(g.prot, goal, source) {
        None => {},
        Some(prot1) => {
            let pb1 = prot1.strip.0;
            let ghost xo: Option<u8> = match source {
                MoveSource::Launch => None,
                MoveSource::Index(x) => Some(x.0),
            };
            assert forall|j: u8| j < 16 implies #[trigger] bit_set(pb1, j) == (bit_set(p, j) && xo
                != Some(j)) by {
                match source {
                    MoveSource::Launch => {},
                    MoveSource::Index(x) => {
                        lemma_bit_clear(p, x.0, j);
                    },
                }
            }
            match spec_apply_delta_source(source, d) {
                DeltaResult::OutOfBounds => {},
                DeltaResult::Score => {
                    if prot1.score + 1 == goal {
                    } else {
                        let g2 = GameState {
                            prot: TeamState {
                                strip: prot1.strip,
                                score: (prot1.score + 1) as u8,
                            },
                            opp: g.opp,
                        };
                        match source {
                            MoveSource::Launch => {},
                            MoveSource::Index(x) => {
                                lemma_end_update(p, x.0);
                                assert(spec_sub_rank(g2.prot) > spec_sub_rank(g.prot));
                                lemma_rank_increases_on_sub(g, g2, goal);
                            },
                        }
                    }
                },
                DeltaResult::Index(ni) => {
                    if spec_player_at(g, ni) == Some(Player::Prot) {
                    } else if spec_player_at(g, ni) == Some(Player::Opp) && spec_square(ni)
                        == Square::Flower {
                    } else {
                        let captured = spec_player_at(g, ni) == Some(Player::Opp);
                        let p2v = pb1 | (1u16 << ni.0);
                        let o2v = if captured {
                            o & !(1u16 << ni.0)
                        } else {
                            o
                        };
                        let g2 = GameState {
                            prot: TeamState { strip: StripState(p2v), score: prot1.score },
                            opp: if captured {
                                TeamState { strip: StripState(o2v), score: g.opp.score }
                            } else {
                                g.opp
                            },
                        };
                        assert(spec_move_piece(g, goal, source, d) == Some(
                            Move::Continue { game: g2, keep_turn: spec_square(ni) == Square::Flower },
                        ));
                        assert(!bit_set(p, ni.0));
                        assert forall|j: u8| j < 16 implies #[trigger] bit_set(p2v, j) == (j == ni.0
                            || (bit_set(p, j) && xo != Some(j))) by {
                            lemma_bit_or(pb1, ni.0, j);
                        }
                        assert forall|j: u8| j < 16 implies (#[trigger] bit_set(o2v, j) == (
                        bit_set(o, j) && (!captured || j != ni.0))) by {
                            if captured {
                                lemma_bit_clear(o, ni.0, j);
                            }
                        }
                        if ni.0 >= 12 {
                            // The move enters the exit squares: the mover's
                            // weight strictly rises.
                            assert(!captured);
                            match source {
                                MoveSource::Launch => {},
                                MoveSource::Index(x) => {
                                    lemma_end_update(p, x.0);
                                    lemma_end_update(pb1, ni.0);
                                    assert(!bit_set(pb1, ni.0));
                                    if x.0 >= 12 {
                                        assert(x.0 == 12 && ni.0 == 13);
                                        assert(!bit_set(p, 13));
                                        assert(spec_sub_rank(g2.prot) > spec_sub_rank(g.prot));
                                    } else {
                                        assert(spec_sub_rank(g2.prot) > spec_sub_rank(g.prot));
                                    }
                                    lemma_rank_increases_on_sub(g, g2, goal);
                                },
                            }
                        } else {
                            // A board move: the header is unchanged and the
                            // focus token never weighs less.
                            lemma_board_move_token_monotone(
                                g,
                                g2,
                                goal,
                                xo,
                                ni.0,
                                captured,
                            );
                        }
                    }
                },
            }
        },
    }
}

/// How one move shifts the highest occupied square below `n`: the new
/// highest is the destination or the old one, never lower than the
/// destination, and it moves only upward.
proof fn lemma_highest_move_cases(
    p: u16,
    o: u16,
    p2: u16,
    o2: u16,
    xo: Option<u8>,
    ni: u8,
    captured: bool,
    n: int,
)
    requires
        0 <= n <= 12,
        (ni as int) < n,
        !bit_set(p, ni),
        xo matches Some(x) ==> x < ni && x <= 13,
        forall|j: u8|
            j < 16 ==> #[trigger] bit_set(p2, j) == (j == ni || (bit_set(p, j) && xo != Some(j))),
        forall|j: u8|
            j < 16 ==> #[trigger] bit_set(o2, j) == (bit_set(o, j) && (!captured || j != ni)),
    ensures
        spec_highest(p2, o2, n) >= ni as int,
        spec_highest(p2, o2, n) == ni as int || spec_highest(p2, o2, n) == spec_highest(p, o, n),
        spec_highest(p2, o2, n) != spec_highest(p, o, n) ==> spec_highest(p, o, n) < ni as int,
{
    lemma_highest_props(p, o, n);
    lemma_highest_props(p2, o2, n);
    let h = spec_highest(p, o, n);
    let hp = spec_highest(p2, o2, n);
    assert(bit_set(p2, ni));
    assert(hp >= ni as int);
    if hp != ni as int {
        let hu = hp as u8;
        assert(bit_set(p2, hu) || bit_set(o2, hu));
        assert(bit_set(p, hu) || bit_set(o, hu));
        assert(hp <= h);
        if hp != h {
            let hh = h as u8;
            assert(bit_set(p, hh) || bit_set(o, hh));
            if xo == Some(hh) {
                assert((hh as int) < ni as int);
                assert(false);
            } else if hh == ni {
                assert(false);
            } else {
                assert(bit_set(p2, hh) || bit_set(o2, hh));
                assert(hp >= h);
                assert(false);
            }
        }
    }
    if hp != h {
        assert(hp == ni as int);
        if h >= ni as int {
            let hh = h as u8;
            assert(bit_set(p, hh) || bit_set(o, hh));
            if xo == Some(hh) {
                assert((hh as int) < ni as int);
                assert(false);
            } else if hh == ni {
                assert(false);
            } else {
                assert(bit_set(p2, hh) || bit_set(o2, hh));
                assert(hp >= h);
                assert(false);
            }
        }
    }
}

/// The core of the layer-order argument: a move whose destination stays on
/// the strip proper keeps the header weights and never lowers the token.
#[verifier::rlimit(60)]
proof fn lemma_board_move_token_monotone(
    g: GameState,
    g2: GameState,
    goal: u8,
    xo: Option<u8>,
    ni: u8,
    captured: bool,
)
    requires
        g.wf(goal),
        g2.wf(goal),
        goal <= GOAL_SCORE,
        ni <= 11,
        g2.prot.score == g.prot.score,
        g2.opp.score == g.opp.score,
        !bit_set(g.prot.strip.0, ni),
        captured ==> 4 <= ni,
        ni == 7 ==> !bit_set(g.opp.strip.0, ni),
        xo matches Some(x) ==> x < ni && x <= 13 && bit_set(g.prot.strip.0, x),
        forall|j: u8|
            j < 16 ==> #[trigger] bit_set(g2.prot.strip.0, j) == (j == ni || (bit_set(
                g.prot.strip.0,
                j,
            ) && xo != Some(j))),
        forall|j: u8|
            j < 16 ==> #[trigger] bit_set(g2.opp.strip.0, j) == (bit_set(g.opp.strip.0, j) && (
            !captured || j != ni)),
    ensures
        spec_perma_rank(spec_perma_key(g2)) >= spec_perma_rank(spec_perma_key(g)),
{
    let p = g.prot.strip.0;
    let o = g.opp.strip.0;
    let p2 = g2.prot.strip.0;
    let o2 = g2.opp.strip.0;
    let ghost xs: u8 = match xo {
        None => 15,
        Some(x) => x,
    };
    lemma_nibble_update(p, 0);
    lemma_nibble_update(o, 0);
    lemma_nibble_update(p2, 0);
    lemma_nibble_update(o2, 0);
    // Exit squares and scores are untouched, so the sorted header weights
    // agree.
    assert(spec_sub_rank(g2.prot) == spec_sub_rank(g.prot) && spec_sub_rank(g2.opp)
        == spec_sub_rank(g.opp)) by {
        lemma_ends_equal_from_bits(p, p2);
        lemma_ends_equal_from_bits(o, o2);
    }
    lemma_perma_sub_ranks(g);
    lemma_perma_sub_ranks(g2);
    lemma_key_token_facts(g, goal);
    lemma_key_token_facts(g2, goal);
    let h = spec_highest(p, o, 12);
    let hp = spec_highest(p2, o2, 12);
    lemma_highest_props(p, o, 12);
    lemma_highest_props(p2, o2, 12);
    lemma_highest_move_cases(p, o, p2, o2, xo, ni, captured, 12);
    let ka = spec_perma_key(g);
    let kb = spec_perma_key(g2);
    let ta = ka.max_token;
    let tb = kb.max_token;
    // The launch nibbles, when the move stays among the launch squares.
    if ni <= 3 {
        assert((p2 & 0xF) > (p & 0xF)) by {
            assert(bit_set(p2, 0) == (0 == ni || (bit_set(p, 0) && 0 != xs)));
            assert(bit_set(p2, 1) == (1 == ni || (bit_set(p, 1) && 1 != xs)));
            assert(bit_set(p2, 2) == (2 == ni || (bit_set(p, 2) && 2 != xs)));
            assert(bit_set(p2, 3) == (3 == ni || (bit_set(p, 3) && 3 != xs)));
            lemma_nibble_gt_from_bits(p, p2, xs, ni);
        }
        assert((o2 & 0xF) == (o & 0xF)) by {
            assert(bit_set(o2, 0) == bit_set(o, 0));
            assert(bit_set(o2, 1) == bit_set(o, 1));
            assert(bit_set(o2, 2) == bit_set(o, 2));
            assert(bit_set(o2, 3) == bit_set(o, 3));
            lemma_nibble_eq_from_bits(o, o2);
        }
    }
    if hp == h {
        if 4 <= h && h != 7 {
            assert(tb == ta);
        } else if h < 4 {
            assert(ni <= 3);
            lemma_start_pack_monotone(g, g2);
            assert(spec_token_rank(tb) >= spec_token_rank(ta));
        } else {
            // The shared flower stays on top: the fallback square decides.
            assert(h == 7);
            let h2 = spec_highest(p, o, 7);
            let hp2 = spec_highest(p2, o2, 7);
            lemma_highest_props(p, o, 7);
            lemma_highest_props(p2, o2, 7);
            assert(ni != 7);
            assert(ni < 7) by {
                if ni > 7 {
                    assert(hp >= ni as int);
                }
            }
            lemma_highest_move_cases(p, o, p2, o2, xo, ni, captured, 7);
            assert(hp2 >= ni as int);
            if hp2 == h2 {
                if h2 >= 4 {
                    assert(tb == ta);
                } else {
                    assert(ni <= 3);
                    lemma_start_pack_monotone(g, g2);
                    assert(spec_token_rank(tb) >= spec_token_rank(ta));
                }
            } else {
                assert(hp2 == ni as int && h2 < ni as int);
                if 4 <= ni {
                    assert(spec_token_rank(tb) >= spec_token_rank(ta));
                } else {
                    lemma_start_pack_monotone(g, g2);
                    assert(spec_token_rank(tb) >= spec_token_rank(ta));
                }
            }
        }
    } else {
        assert(hp == ni as int && h < ni as int);
        if ni <= 3 {
            lemma_start_pack_monotone(g, g2);
            assert(spec_token_rank(tb) >= spec_token_rank(ta));
        } else {
            assert(spec_token_rank(tb) >= spec_token_rank(ta));
        }
    }
    assert(spec_token_rank(tb) >= spec_token_rank(ta));
    let hdr = ((ka.team_gt.score as int) * 4 + ka.team_gt.strip_end as int) * 32 + (
    ka.team_lt.score as int) * 4 + ka.team_lt.strip_end as int;
    let hdrb = ((kb.team_gt.score as int) * 4 + kb.team_gt.strip_end as int) * 32 + (
    kb.team_lt.score as int) * 4 + kb.team_lt.strip_end as int;
    assert(hdr == hdrb);
    assert(spec_perma_rank(ka) == hdr * 0x40000 + spec_token_rank(ta));
    assert(spec_perma_rank(kb) == hdrb * 0x40000 + spec_token_rank(tb));
}

/// Bitwise-equal exit squares give equal exit weights.
proof fn lemma_ends_equal_from_bits(a: u16, b: u16)
    requires
        bit_set(b, 12) == bit_set(a, 12),
        bit_set(b, 13) == bit_set(a, 13),
    ensures
        ((b >> 12) & 3) == ((a >> 12) & 3),
{
    assert((((b >> 12) & 3) == ((a >> 12) & 3))) by (bit_vector)
        requires
            bit_set(b, 12) == bit_set(a, 12),
            bit_set(b, 13) == bit_set(a, 13),
    ;
}

/// Lifts the rank monotonicity to every continuation of every roll, with
/// the stored side of a turn-pass covered by the key's flip invariance.
pub proof fn lemma_successor_rank_monotone(g: GameState, goal: u8, roll: Roll, i: int)
    requires
        g.wf(goal),
        roll.wf(),
        goal <= GOAL_SCORE,
        0 <= i < spec_possible_moves(g, goal, roll).len(),
    ensures
        spec_possible_moves(g, goal, roll)[i] matches Move::Continue { game: g2, keep_turn }
            ==> spec_perma_rank(
            spec_perma_key(
                if keep_turn {
                    g2
                } else {
                    g2.spec_flip()
                },
            ),
        ) >= spec_perma_rank(spec_perma_key(g)),
{
    match roll {
        Roll::Zero => {
            lemma_perma_flip(g);
        },
        Roll::Delta(d) => {
            let ms = rest_moves(g, goal, d, 0);
            if ms.len() == 0 {
                lemma_perma_flip(g);
            } else {
                lemma_rest_moves_rank(g, goal, d, 0);
                match spec_possible_moves(g, goal, roll)[i] {
                    Move::Continue { game: g2, keep_turn } => {
                        lemma_perma_flip(g2);
                    },
                    Move::End => {},
                }
            }
        },
    }
}

/// Each entry of `rest_moves` respects the rank order.
proof fn lemma_rest_moves_rank(g: GameState, goal: u8, d: Delta, k: int)
    requires
        g.wf(goal),
        d.wf(),
        goal <= GOAL_SCORE,
    ensures
        forall|i: int|
            0 <= i < rest_moves(g, goal, d, k).len() ==> ((#[trigger] rest_moves(g, goal, d, k)[i])
                matches Move::Continue { game: g2, keep_turn } ==> spec_perma_rank(
                spec_perma_key(g2),
            ) >= spec_perma_rank(spec_perma_key(g))),
    decreases 15 - k,
{
    if 0 <= k < 15 {
        lemma_rest_moves_rank(g, goal, d, k + 1);
        assert(spec_source(k).wf());
        lemma_move_rank_monotone(g, goal, spec_source(k), d);
        let rk = rest_moves(g, goal, d, k);
        let rk1 = rest_moves(g, goal, d, k + 1);
        assert forall|i: int| 0 <= i < rk.len() implies ((#[trigger] rk[i]) matches Move::Continue {
            game: g2,
            keep_turn,
        } ==> spec_perma_rank(spec_perma_key(g2)) >= spec_perma_rank(spec_perma_key(g))) by {
            match spec_move_piece(g, goal, spec_source(k), d) {
                None => {
                    assert(rk[i] == rk1[i]);
                },
                Some(m) => {
                    if i == 0 {
                        assert(rk[i] == m);
                    } else {
                        assert(rk[i] == rk1[i - 1]);
                    }
                },
            }
        }
    }
}


/// Every stored transition lands in the same layer or an earlier-solved
/// one: the sort order of the state table is a topological order of the
/// stored game graph, layer by layer.
pub proof fn lemma_step_sorts_no_later(goal: u8, a: GameState, b: GameState)
    requires
        a.wf(goal),
        goal <= GOAL_SCORE,
        spec_step_rel(goal, a, b),
    ensures
        spec_perma_rank(spec_perma_key(b)) >= spec_perma_rank(spec_perma_key(a)),
{
    let (r, i) = choose|r: int, i: int|
        {
            &&& 0 <= r < 5
            &&& 0 <= i < spec_possible_moves(a, goal, Roll::spec_index(r)).len()
            &&& (#[trigger] spec_possible_moves(a, goal, Roll::spec_index(r))[i]) matches Move::Continue {
                game,
                keep_turn,
            } && b == (if keep_turn {
                game
            } else {
                game.spec_flip()
            })
        };
    assert(Roll::spec_index(r).wf());
    lemma_successor_rank_monotone(a, goal, Roll::spec_index(r), i);
}

} // verus!
