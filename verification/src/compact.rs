use vstd::arithmetic::div_mod::lemma_fundamental_div_mod_converse;
use vstd::prelude::*;

use crate::game::{GameState, TeamState, GOAL_SCORE};
use crate::strip::{
    bit_set, lemma_bit_or, lemma_count_bits_bounds, lemma_u16_bit_ext, StripIndex, StripState,
};

verus! {

/// What the 30-bit key can carry: scores of three bits, strips confined to
/// the fourteen squares, and no shared square held by both teams.
pub open spec fn fits_key(g: GameState) -> bool {
    &&& g.prot.strip.wf()
    &&& g.opp.strip.wf()
    &&& g.prot.score <= 7
    &&& g.opp.score <= 7
    &&& forall|j: u8|
        4 <= j <= 11 ==> !(#[trigger] bit_set(g.prot.strip.0, j) && bit_set(g.opp.strip.0, j))
}

/// Any well-formed position fits the key.
pub proof fn lemma_wf_fits(g: GameState, goal: u8)
    requires
        g.wf(goal),
        goal <= GOAL_SCORE,
    ensures
        fits_key(g),
{
    lemma_count_bits_bounds(g.prot.strip.0, 14);
    lemma_count_bits_bounds(g.opp.strip.0, 14);
}

/// The base-3 digit of shared square `i`: empty, mover, or opponent.
pub open spec fn spec_digit(g: GameState, i: u8) -> int {
    if bit_set(g.prot.strip.0, i) {
        1
    } else if bit_set(g.opp.strip.0, i) {
        2
    } else {
        0
    }
}

/// The shared squares `4 .. n` packed as a base-3 number, square 4 most
/// significant.
pub open spec fn shared_code_upto(g: GameState, n: int) -> int
    decreases n,
{
    if n <= 4 {
        0
    } else {
        shared_code_upto(g, n - 1) * 3 + spec_digit(g, (n - 1) as u8)
    }
}

pub open spec fn pow3(k: nat) -> int
    decreases k,
{
    if k == 0 {
        1
    } else {
        3 * pow3((k - 1) as nat)
    }
}

pub proof fn lemma_shared_code_bound(g: GameState, n: int)
    requires
        4 <= n <= 12,
    ensures
        0 <= shared_code_upto(g, n) < pow3((n - 4) as nat),
    decreases n,
{
    if n > 4 {
        lemma_shared_code_bound(g, n - 1);
    }
}

/// The whole shared region fits in thirteen bits.
pub proof fn lemma_shared_code_fits(g: GameState)
    ensures
        0 <= shared_code_upto(g, 12) <= 6560,
{
    lemma_shared_code_bound(g, 12);
    reveal_with_fuel(pow3, 9);
    assert(pow3(8) == 6561);
}

/// The 30-bit compact key of a position, as an integer:
/// mover score, opponent score, mover private squares, opponent private
/// squares, then the shared region in base 3.
pub open spec fn spec_encode(g: GameState) -> int {
    (g.prot.score as int) * 0x10000000 + (g.opp.score as int) * 0x2000000 + ((g.prot.strip.0
        & 0xF) as int) * 0x200000 + (((g.prot.strip.0 >> 12) & 3) as int) * 0x80000 + ((
    g.opp.strip.0 & 0xF) as int) * 0x8000 + (((g.opp.strip.0 >> 12) & 3) as int) * 0x2000
        + shared_code_upto(g, 12)
}

/// Replays the base-3 digits of `sh` back onto the two strips, square `i`
/// first, descending to square 4.
pub open spec fn place_digits(p: u16, o: u16, sh: int, i: int) -> (u16, u16)
    decreases i,
{
    if i < 4 {
        (p, o)
    } else {
        let d = sh % 3;
        let p2 = if d == 1 {
            p | (1u16 << (i as u8))
        } else {
            p
        };
        let o2 = if d == 2 {
            o | (1u16 << (i as u8))
        } else {
            o
        };
        place_digits(p2, o2, sh / 3, i - 1)
    }
}

/// The position a 32-bit key decodes to.
pub open spec fn spec_decode(k: u32) -> GameState {
    let score1 = ((k >> 28) & 7) as u8;
    let score2 = ((k >> 25) & 7) as u8;
    let start1 = ((k >> 21) & 0xF) as u8;
    let end1 = ((k >> 19) & 3) as u8;
    let start2 = ((k >> 15) & 0xF) as u8;
    let end2 = ((k >> 13) & 3) as u8;
    let base_p = ((start1 as u16) & 0xF) | (((end1 as u16) & 3) << 12);
    let base_o = ((start2 as u16) & 0xF) | (((end2 as u16) & 3) << 12);
    let strips = place_digits(base_p, base_o, (k & 0x1FFF) as int, 11);
    GameState {
        prot: TeamState { strip: StripState(strips.0), score: score1 },
        opp: TeamState { strip: StripState(strips.1), score: score2 },
    }
}

/// A position in its compact 30-bit form.
#[derive(Debug, Clone, Hash, PartialEq, Eq, Copy, Structural)]
pub struct GameStateSmall(pub u32);

impl GameStateSmall {
    /// Packs a position into its compact key.
    pub fn from_game(game: GameState) -> (r: GameStateSmall)
        requires
            fits_key(game),
        ensures
            r.0 as int == spec_encode(game),
            r.0 < 0x80000000,
    {
        let s1 = (game.prot.score & 7) as u32;
        let s2 = (game.opp.score & 7) as u32;
        let st1 = game.prot.strip.start_bits() as u32;
        let e1 = game.prot.strip.end_bits() as u32;
        let st2 = game.opp.strip.start_bits() as u32;
        let e2 = game.opp.strip.end_bits() as u32;
        proof {
            let a = game.prot.score;
            let b = game.opp.score;
            assert(a <= 7 ==> (a & 7) == a) by (bit_vector);
            assert(b <= 7 ==> (b & 7) == b) by (bit_vector);
        }
        let mut shared: u32 = 0;
        let mut i: u8 = 4;
        while i < 12
            invariant
                4 <= i <= 12,
                shared as int == shared_code_upto(game, i as int),
            decreases 12 - i,
        {
            proof {
                lemma_shared_code_bound(game, i as int);
                reveal_with_fuel(pow3, 9);
                lemma_pow3_le((i - 4) as nat, 7);
            }
            let idx = StripIndex(i);
            let p = game.prot.strip.get(idx);
            let o = game.opp.strip.get(idx);
            let digit: u32 = if p {
                1
            } else if o {
                2
            } else {
                0
            };
            shared = shared * 3 + digit;
            i = i + 1;
        }
        proof {
            lemma_shared_code_fits(game);
        }
        let res = (s1 << 28) | (s2 << 25) | (st1 << 21) | (e1 << 19) | (st2 << 15) | (e2 << 13) | (
        0x7FFF & shared);
        proof {
            assert(((s1 << 28) | (s2 << 25) | (st1 << 21) | (e1 << 19) | (st2 << 15) | (e2 << 13)
                | (0x7FFF & shared)) == s1 * 0x10000000 + s2 * 0x2000000 + st1 * 0x200000 + e1
                * 0x80000 + st2 * 0x8000 + e2 * 0x2000 + shared && ((s1 << 28) | (s2 << 25) | (st1
                << 21) | (e1 << 19) | (st2 << 15) | (e2 << 13) | (0x7FFF & shared)) < 0x80000000)
                by (bit_vector)
                requires
                    s1 < 8,
                    s2 < 8,
                    st1 < 16,
                    e1 < 4,
                    st2 < 16,
                    e2 < 4,
                    shared < 6561,
            ;
        }
        GameStateSmall(res)
    }

    /// Unpacks a compact key back into a position.
    pub fn to_game(self) -> (r: GameState)
        ensures
            r == spec_decode(self.0),
    {
        let bits = self.0;
        let score1 = ((bits >> 28) & 7) as u8;
        let score2 = ((bits >> 25) & 7) as u8;
        let start1 = ((bits >> 21) & 0xF) as u8;
        let end1 = ((bits >> 19) & 3) as u8;
        let start2 = ((bits >> 15) & 0xF) as u8;
        let end2 = ((bits >> 13) & 3) as u8;
        let mut prot_strip = StripState::from_start_and_end(start1, end1);
        let mut opp_strip = StripState::from_start_and_end(start2, end2);
        let ghost target = place_digits(prot_strip.0, opp_strip.0, (bits & 0x1FFF) as int, 11);
        let mut shared: u32 = bits & 0x1FFF;
        let mut i: u8 = 12;
        while i > 4
            invariant
                4 <= i <= 12,
                place_digits(prot_strip.0, opp_strip.0, shared as int, i as int - 1) == target,
            decreases i,
        {
            i = i - 1;
            let digit = shared % 3;
            shared = shared / 3;
            if digit == 1 {
                prot_strip.set(StripIndex(i), true);
            } else if digit == 2 {
                opp_strip.set(StripIndex(i), true);
            }
        }
        let r = GameState {
            prot: TeamState { strip: prot_strip, score: score1 },
            opp: TeamState { strip: opp_strip, score: score2 },
        };
        proof {
            assert(place_digits(prot_strip.0, opp_strip.0, shared as int, 3) == (
            prot_strip.0,
            opp_strip.0,
            ));
        }
        r
    }

    /// The raw 32-bit word of this key.
    pub fn raw(self) -> (r: u32)
        ensures
            r == self.0,
    {
        self.0
    }

    pub fn from_raw(v: u32) -> (r: GameStateSmall)
        ensures
            r.0 == v,
    {
        GameStateSmall(v)
    }
}

proof fn lemma_pow3_pos(k: nat)
    ensures
        pow3(k) >= 1,
    decreases k,
{
    if k > 0 {
        lemma_pow3_pos((k - 1) as nat);
    }
}

proof fn lemma_pow3_le(a: nat, b: nat)
    requires
        a <= b,
    ensures
        pow3(a) <= pow3(b),
    decreases b,
{
    if a < b && b > 0 {
        lemma_pow3_le(a, (b - 1) as nat);
        lemma_pow3_pos((b - 1) as nat);
    }
}

/// Replaying the packed digits of squares `4 .. n` onto strips reproduces,
/// bit for bit, the digits that were packed.
proof fn lemma_place_digits(g: GameState, p: u16, o: u16, n: int)
    requires
        4 <= n <= 12,
    ensures
        forall|j: u8|
            j < 16 ==> bit_set(#[trigger] place_digits(p, o, shared_code_upto(g, n), n - 1).0, j)
                == (bit_set(p, j) || (4 <= j < n && spec_digit(g, j) == 1)),
        forall|j: u8|
            j < 16 ==> bit_set(#[trigger] place_digits(p, o, shared_code_upto(g, n), n - 1).1, j)
                == (bit_set(o, j) || (4 <= j < n && spec_digit(g, j) == 2)),
    decreases n,
{
    if n == 4 {
    } else {
        let code = shared_code_upto(g, n);
        let prev = shared_code_upto(g, n - 1);
        let d = spec_digit(g, (n - 1) as u8);
        lemma_shared_code_bound(g, n - 1);
        lemma_fundamental_div_mod_converse(code, 3, prev, d);
        let p2 = if d == 1 {
            p | (1u16 << ((n - 1) as u8))
        } else {
            p
        };
        let o2 = if d == 2 {
            o | (1u16 << ((n - 1) as u8))
        } else {
            o
        };
        assert(place_digits(p, o, code, n - 1) == place_digits(p2, o2, prev, n - 2));
        lemma_place_digits(g, p2, o2, n - 1);
        assert forall|j: u8| j < 16 implies bit_set(
            #[trigger] place_digits(p, o, code, n - 1).0,
            j,
        ) == (bit_set(p, j) || (4 <= j < n && spec_digit(g, j) == 1)) by {
            lemma_bit_or(p, (n - 1) as u8, j);
        }
        assert forall|j: u8| j < 16 implies bit_set(
            #[trigger] place_digits(p, o, code, n - 1).1,
            j,
        ) == (bit_set(o, j) || (4 <= j < n && spec_digit(g, j) == 2)) by {
            lemma_bit_or(o, (n - 1) as u8, j);
        }
    }
}

/// Decoding an encoded position gives the position back: the compact key is
/// lossless on every position that fits it.
pub proof fn lemma_decode_encode(g: GameState)
    requires
        fits_key(g),
    ensures
        spec_decode(spec_encode(g) as u32) == g,
{
    let s1 = g.prot.score;
    let s2 = g.opp.score;
    let p0 = g.prot.strip.0;
    let o0 = g.opp.strip.0;
    let sh = shared_code_upto(g, 12);
    lemma_shared_code_fits(g);
    assert((p0 & 0xF) < 16 && ((p0 >> 12) & 3) < 4 && (o0 & 0xF) < 16 && ((o0 >> 12) & 3) < 4)
        by (bit_vector);
    assert(0 <= spec_encode(g) < 0x80000000);
    let k = spec_encode(g) as u32;
    let shu: u32 = sh as u32;
    assert((k >> 28) & 7 == s1 as u32 && (k >> 25) & 7 == s2 as u32 && (k >> 21) & 0xF == (p0
        & 0xF) as u32 && (k >> 19) & 3 == ((p0 >> 12) & 3) as u32 && (k >> 15) & 0xF == (o0
        & 0xF) as u32 && (k >> 13) & 3 == ((o0 >> 12) & 3) as u32 && (k & 0x1FFF) == shu)
        by (bit_vector)
        requires
            s1 <= 7,
            s2 <= 7,
            shu <= 6560,
            k == s1 * 0x10000000 + s2 * 0x2000000 + ((p0 & 0xF) as u32) * 0x200000 + (((p0 >> 12)
                & 3) as u32) * 0x80000 + ((o0 & 0xF) as u32) * 0x8000 + (((o0 >> 12)
                & 3) as u32) * 0x2000 + shu,
    ;
    let base_p = ((((k >> 21) & 0xF) as u8 as u16) & 0xF) | (((((k >> 19) & 3) as u8 as u16) & 3)
        << 12);
    let base_o = ((((k >> 15) & 0xF) as u8 as u16) & 0xF) | (((((k >> 13) & 3) as u8 as u16) & 3)
        << 12);
    assert(base_p == (p0 & 0x300F)) by (bit_vector)
        requires
            base_p == ((((p0 & 0xF) as u32) as u8 as u16) & 0xF) | ((((((p0 >> 12)
                & 3) as u32) as u8 as u16) & 3) << 12),
    ;
    assert(base_o == (o0 & 0x300F)) by (bit_vector)
        requires
            base_o == ((((o0 & 0xF) as u32) as u8 as u16) & 0xF) | ((((((o0 >> 12)
                & 3) as u32) as u8 as u16) & 3) << 12),
    ;
    lemma_place_digits(g, base_p, base_o, 12);
    let strips = place_digits(base_p, base_o, sh, 11);
    assert forall|j: u8| j < 16 implies bit_set(strips.0, j) == bit_set(p0, j) by {
        assert(bit_set(base_p, j) == ((j < 4 || j == 12 || j == 13) && bit_set(p0, j)))
            by (bit_vector)
            requires
                base_p == (p0 & 0x300F),
                j < 16,
        ;
        if 4 <= j <= 11 {
            assert(spec_digit(g, j) == 1 <==> bit_set(p0, j));
        } else {
            assert(!(4 <= j < 12 && spec_digit(g, j) == 1));
            if j == 14 || j == 15 {
                assert(p0 < 0x4000 ==> !bit_set(p0, j)) by (bit_vector)
                    requires
                        j == 14 || j == 15,
                ;
            }
        }
    }
    assert forall|j: u8| j < 16 implies bit_set(strips.1, j) == bit_set(o0, j) by {
        assert(bit_set(base_o, j) == ((j < 4 || j == 12 || j == 13) && bit_set(o0, j)))
            by (bit_vector)
            requires
                base_o == (o0 & 0x300F),
                j < 16,
        ;
        if 4 <= j <= 11 {
            assert(spec_digit(g, j) == 2 <==> bit_set(o0, j));
        } else {
            assert(!(4 <= j < 12 && spec_digit(g, j) == 2));
            if j == 14 || j == 15 {
                assert(o0 < 0x4000 ==> !bit_set(o0, j)) by (bit_vector)
                    requires
                        j == 14 || j == 15,
                ;
            }
        }
    }
    lemma_u16_bit_ext(strips.0, p0);
    lemma_u16_bit_ext(strips.1, o0);
    assert(spec_decode(k) == g);
}

proof fn lemma_place_wf(p: u16, o: u16, sh: int, i: int)
    requires
        p < 0x4000,
        o < 0x4000,
        i <= 11,
    ensures
        place_digits(p, o, sh, i).0 < 0x4000,
        place_digits(p, o, sh, i).1 < 0x4000,
    decreases i,
{
    if i >= 4 {
        let ii = i as u8;
        assert(p < 0x4000 && ii <= 11 ==> (p | (1u16 << ii)) < 0x4000) by (bit_vector);
        assert(o < 0x4000 && ii <= 11 ==> (o | (1u16 << ii)) < 0x4000) by (bit_vector);
        let d = sh % 3;
        let p2 = if d == 1 {
            p | (1u16 << ii)
        } else {
            p
        };
        let o2 = if d == 2 {
            o | (1u16 << ii)
        } else {
            o
        };
        lemma_place_wf(p2, o2, sh / 3, i - 1);
    }
}

/// Whatever the key, decoding yields strips confined to the fourteen squares
/// and scores of at most seven.
pub proof fn lemma_decode_bounds(k: u32)
    ensures
        spec_decode(k).prot.strip.wf(),
        spec_decode(k).opp.strip.wf(),
        spec_decode(k).prot.score <= 7,
        spec_decode(k).opp.score <= 7,
{
    assert(((k >> 28) & 7) < 8 && ((k >> 25) & 7) < 8) by (bit_vector);
    let start1 = ((k >> 21) & 0xF) as u8;
    let end1 = ((k >> 19) & 3) as u8;
    let start2 = ((k >> 15) & 0xF) as u8;
    let end2 = ((k >> 13) & 3) as u8;
    let base_p = ((start1 as u16) & 0xF) | (((end1 as u16) & 3) << 12);
    let base_o = ((start2 as u16) & 0xF) | (((end2 as u16) & 3) << 12);
    assert(base_p < 0x4000) by (bit_vector)
        requires
            base_p == ((start1 as u16) & 0xF) | (((end1 as u16) & 3) << 12),
    ;
    assert(base_o < 0x4000) by (bit_vector)
        requires
            base_o == ((start2 as u16) & 0xF) | (((end2 as u16) & 3) << 12),
    ;
    lemma_place_wf(base_p, base_o, (k & 0x1FFF) as int, 11);
}

/// Two distinct positions never share a key: the compact key is injective
/// on everything it can carry.
pub proof fn lemma_encode_injective(a: GameState, b: GameState)
    requires
        fits_key(a),
        fits_key(b),
        spec_encode(a) == spec_encode(b),
    ensures
        a == b,
{
    lemma_decode_encode(a);
    lemma_decode_encode(b);
}

/// Round trip through the key: compacting, decoding, and compacting again
/// yields the same key, so the key is a bijection on well-formed positions.
pub proof fn lemma_compact_round_trip(g: GameState, goal: u8)
    requires
        g.wf(goal),
        goal <= GOAL_SCORE,
    ensures
        spec_decode(spec_encode(g) as u32) == g,
        spec_encode(spec_decode(spec_encode(g) as u32)) == spec_encode(g),
{
    lemma_wf_fits(g, goal);
    lemma_decode_encode(g);
}

} // verus!
