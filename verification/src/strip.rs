use vstd::prelude::*;

use crate::successor::Succ;

verus! {

/// True when bit `i` of `bits` is set.
pub open spec fn bit_set(bits: u16, i: u8) -> bool {
    (bits >> i) & 1 == 1
}

/// Number of set bits among bits `0 .. n` of `bits`.
pub open spec fn count_bits(bits: u16, n: int) -> int
    decreases n,
{
    if n <= 0 {
        0
    } else {
        count_bits(bits, n - 1) + (if bit_set(bits, (n - 1) as u8) {
            1int
        } else {
            0int
        })
    }
}

pub proof fn lemma_count_bits_bounds(bits: u16, n: int)
    requires
        0 <= n,
    ensures
        0 <= count_bits(bits, n) <= n,
    decreases n,
{
    if n > 0 {
        lemma_count_bits_bounds(bits, n - 1);
    }
}

pub proof fn lemma_bit_or(b: u16, i: u8, j: u8)
    by (bit_vector)
    requires
        i < 16,
        j < 16,
    ensures
        bit_set(b | (1u16 << i), j) == (j == i || bit_set(b, j)),
{
}

pub proof fn lemma_bit_clear(b: u16, i: u8, j: u8)
    by (bit_vector)
    requires
        i < 16,
        j < 16,
    ensures
        bit_set(b & !(1u16 << i), j) == (j != i && bit_set(b, j)),
{
}

/// Setting one bit raises the prefix count by one exactly when the bit was
/// clear and lies inside the prefix.
pub proof fn lemma_count_bits_or(b: u16, i: u8, n: int)
    requires
        i < 16,
        0 <= n <= 16,
    ensures
        count_bits(b | (1u16 << i), n) == count_bits(b, n) + (if (i as int) < n && !bit_set(b, i) {
            1int
        } else {
            0int
        }),
    decreases n,
{
    if n > 0 {
        lemma_count_bits_or(b, i, n - 1);
        lemma_bit_or(b, i, (n - 1) as u8);
    }
}

/// Clearing one bit lowers the prefix count by one exactly when the bit was
/// set and lies inside the prefix.
pub proof fn lemma_count_bits_clear(b: u16, i: u8, n: int)
    requires
        i < 16,
        0 <= n <= 16,
    ensures
        count_bits(b & !(1u16 << i), n) == count_bits(b, n) - (if (i as int) < n && bit_set(b, i) {
            1int
        } else {
            0int
        }),
    decreases n,
{
    if n > 0 {
        lemma_count_bits_clear(b, i, n - 1);
        lemma_bit_clear(b, i, (n - 1) as u8);
    }
}

/// How setting or clearing one bit moves the low nibble: bits above the
/// nibble leave it alone, bits inside it add or remove their weight.
pub proof fn lemma_nibble_update(b: u16, i: u8)
    by (bit_vector)
    requires
        i <= 13,
    ensures
        (b & 0xF) < 16,
        i <= 3 && !bit_set(b, i) ==> ((b | (1u16 << i)) & 0xF) == (b & 0xF) + (1u16 << i),
        i <= 3 && bit_set(b, i) ==> ((b & !(1u16 << i)) & 0xF) == (b & 0xF) - (1u16 << i),
        i >= 4 ==> ((b | (1u16 << i)) & 0xF) == (b & 0xF),
        i >= 4 ==> ((b & !(1u16 << i)) & 0xF) == (b & 0xF),
        i <= 3 ==> (1u16 << i) as int == (if i == 0 {
            1int
        } else if i == 1 {
            2int
        } else if i == 2 {
            4int
        } else {
            8int
        }),
{
}

/// How setting or clearing one bit moves the two exit-square bits.
pub proof fn lemma_end_update(b: u16, i: u8)
    by (bit_vector)
    requires
        i <= 13,
    ensures
        ((b >> 12) & 3) < 4,
        i <= 11 ==> (((b | (1u16 << i)) >> 12) & 3) == ((b >> 12) & 3),
        i <= 11 ==> (((b & !(1u16 << i)) >> 12) & 3) == ((b >> 12) & 3),
        i == 12 && !bit_set(b, i) ==> (((b | (1u16 << i)) >> 12) & 3) == ((b >> 12) & 3) + 1,
        i == 13 && !bit_set(b, i) ==> (((b | (1u16 << i)) >> 12) & 3) == ((b >> 12) & 3) + 2,
        i == 12 && bit_set(b, i) ==> (((b & !(1u16 << i)) >> 12) & 3) == ((b >> 12) & 3) - 1,
        i == 13 && bit_set(b, i) ==> (((b & !(1u16 << i)) >> 12) & 3) == ((b >> 12) & 3) - 2,
{
}

/// Equal low bits give equal launch nibbles.
pub proof fn lemma_nibble_eq_from_bits(a: u16, b: u16)
    by (bit_vector)
    requires
        bit_set(b, 0) == bit_set(a, 0),
        bit_set(b, 1) == bit_set(a, 1),
        bit_set(b, 2) == bit_set(a, 2),
        bit_set(b, 3) == bit_set(a, 3),
    ensures
        (b & 0xF) == (a & 0xF),
{
}

/// Gaining a launch square outweighs losing an earlier one: the nibble
/// strictly grows. `x` is the vacated square, or any index above the nibble
/// when nothing was vacated.
pub proof fn lemma_nibble_gt_from_bits(a: u16, b: u16, x: u8, ni: u8)
    by (bit_vector)
    requires
        ni <= 3,
        x >= 4 || x < ni,
        !bit_set(a, ni),
        bit_set(b, 0) == (0 == ni || (bit_set(a, 0) && 0 != x)),
        bit_set(b, 1) == (1 == ni || (bit_set(a, 1) && 1 != x)),
        bit_set(b, 2) == (2 == ni || (bit_set(a, 2) && 2 != x)),
        bit_set(b, 3) == (3 == ni || (bit_set(a, 3) && 3 != x)),
    ensures
        (b & 0xF) > (a & 0xF),
{
}

/// Two 16-bit words with the same bits are the same word.
pub proof fn lemma_u16_bit_ext(a: u16, b: u16)
    requires
        forall|j: u8| j < 16 ==> bit_set(a, j) == bit_set(b, j),
    ensures
        a == b,
{
    assert(bit_set(a, 0) == bit_set(b, 0));
    assert(bit_set(a, 1) == bit_set(b, 1));
    assert(bit_set(a, 2) == bit_set(b, 2));
    assert(bit_set(a, 3) == bit_set(b, 3));
    assert(bit_set(a, 4) == bit_set(b, 4));
    assert(bit_set(a, 5) == bit_set(b, 5));
    assert(bit_set(a, 6) == bit_set(b, 6));
    assert(bit_set(a, 7) == bit_set(b, 7));
    assert(bit_set(a, 8) == bit_set(b, 8));
    assert(bit_set(a, 9) == bit_set(b, 9));
    assert(bit_set(a, 10) == bit_set(b, 10));
    assert(bit_set(a, 11) == bit_set(b, 11));
    assert(bit_set(a, 12) == bit_set(b, 12));
    assert(bit_set(a, 13) == bit_set(b, 13));
    assert(bit_set(a, 14) == bit_set(b, 14));
    assert(bit_set(a, 15) == bit_set(b, 15));
    assert(a == b) by (bit_vector)
        requires
            bit_set(a, 0) == bit_set(b, 0),
            bit_set(a, 1) == bit_set(b, 1),
            bit_set(a, 2) == bit_set(b, 2),
            bit_set(a, 3) == bit_set(b, 3),
            bit_set(a, 4) == bit_set(b, 4),
            bit_set(a, 5) == bit_set(b, 5),
            bit_set(a, 6) == bit_set(b, 6),
            bit_set(a, 7) == bit_set(b, 7),
            bit_set(a, 8) == bit_set(b, 8),
            bit_set(a, 9) == bit_set(b, 9),
            bit_set(a, 10) == bit_set(b, 10),
            bit_set(a, 11) == bit_set(b, 11),
            bit_set(a, 12) == bit_set(b, 12),
            bit_set(a, 13) == bit_set(b, 13),
            bit_set(a, 14) == bit_set(b, 14),
            bit_set(a, 15) == bit_set(b, 15),
    ;
}

/// Which squares of the 14-square strip a team occupies, one bit per square.
#[derive(Debug, Clone, Copy, Hash, PartialEq, Eq, Structural)]
pub struct StripState(pub u16);

impl StripState {
    /// Only the 14 square bits may be set.
    pub open spec fn wf(self) -> bool {
        self.0 < 0x4000
    }

    /// How many squares this strip occupies.
    pub open spec fn spec_count(self) -> int {
        count_bits(self.0, 14)
    }

    pub fn new() -> (r: Self)
        ensures
            r.0 == 0,
    {
        StripState(0)
    }

    pub fn set(&mut self, i: StripIndex, placed: bool)
        requires
            i.0 <= 13,
        ensures
            final(self).0 == (if placed {
                old(self).0 | (1u16 << i.0)
            } else {
                old(self).0 & !(1u16 << i.0)
            }),
    {
        *self = StripState(
            if placed {
                self.0 | (1u16 << i.0)
            } else {
                self.0 & !(1u16 << i.0)
            },
        );
    }

    pub fn get(&self, i: StripIndex) -> (r: bool)
        requires
            i.0 <= 13,
        ensures
            r == bit_set(self.0, i.0),
    {
        let b = self.0;
        let idx = i.0;
        let r = (b >> idx) & 1 != 0;
        proof {
            assert(((b >> idx) & 1 != 0) == bit_set(b, idx)) by (bit_vector);
        }
        r
    }

    pub fn count_pieces(&self) -> (r: u8)
        ensures
            r as int == self.spec_count(),
    {
        let mut c: u8 = 0;
        let mut i: u8 = 0;
        while i < 14
            invariant
                i <= 14,
                c <= i,
                c as int == count_bits(self.0, i as int),
            decreases 14 - i,
        {
            if self.get(StripIndex(i)) {
                c = c + 1;
            }
            i = i + 1;
        }
        c
    }

    pub fn from_start_and_end(start: u8, end: u8) -> (r: Self)
        ensures
            r.0 == ((start as u16) & 0xF) | (((end as u16) & 3) << 12),
            r.wf(),
    {
        let start_bits = (start & 0xF) as u16;
        let end_bits = ((end & 3) as u16) << 12;
        let r = StripState(start_bits | end_bits);
        proof {
            let s = start;
            let e = end;
            assert((((s & 0xF) as u16) | ((((e & 3) as u16)) << 12)) == (((s as u16) & 0xF) | ((
            (e as u16) & 3) << 12))) by (bit_vector);
            assert((((s as u16) & 0xF) | (((e as u16) & 3) << 12)) < 0x4000) by (bit_vector);
        }
        r
    }

    /// The four private launch squares, as a nibble.
    pub fn start_bits(&self) -> (r: u8)
        ensures
            r as u16 == self.0 & 0xF,
            r < 16,
            self.0 & 0xF < 16,
    {
        let b = self.0;
        let r = (b & 0xF) as u8;
        proof {
            assert((((b & 0xF) as u8) as u16) == (b & 0xF) && (b & 0xF) < 16) by (bit_vector);
        }
        r
    }

    /// The two private exit squares, as the low two bits.
    pub fn end_bits(&self) -> (r: u8)
        ensures
            r as u16 == (self.0 >> 12) & 3,
            r < 4,
            (self.0 >> 12) & 3 < 4,
    {
        let b = self.0;
        let r = ((b >> 12) & 3) as u8;
        proof {
            assert(((((b >> 12) & 3) as u8) as u16) == ((b >> 12) & 3) && ((b >> 12) & 3) < 4)
                by (bit_vector);
        }
        r
    }
}

/// A die outcome that moves a piece, between 1 and 4 squares.
#[derive(Debug, Clone, Copy, PartialEq, Eq, Structural)]
pub struct Delta(pub u8);

impl Delta {
    pub open spec fn wf(self) -> bool {
        1 <= self.0 <= 4
    }

    pub fn new(d: u8) -> (r: Option<Delta>)
        ensures
            r == (if 1 <= d <= 4 {
                Some(Delta(d))
            } else {
                None::<Delta>
            }),
    {
        if 1 <= d && d <= 4 {
            Some(Delta(d))
        } else {
            None
        }
    }

    pub fn get(&self) -> (r: u8)
        ensures
            r == self.0,
    {
        self.0
    }
}

impl Succ for Delta {
    fn first() -> Self {
        Delta(1)
    }

    fn succ(&self) -> Option<Self> {
        if self.0 >= 4 {
            None
        } else {
            Some(Delta(self.0 + 1))
        }
    }
}

/// A square of the strip, numbered 0 through 13.
#[derive(Debug, Clone, Copy, PartialEq, Eq, PartialOrd, Ord, Hash, Structural)]
pub struct StripIndex(pub u8);

/// Where a move's die delta lands, measured from a source square.
#[derive(Debug, Clone, Copy, PartialEq, Eq, Structural)]
pub enum DeltaResult {
    Index(StripIndex),
    Score,
    OutOfBounds,
}

/// Flower squares grant another turn and shelter the piece standing there.
#[derive(Debug, Clone, Copy, PartialEq, Eq, Structural)]
pub enum Square {
    Flower,
    Normal,
}

/// What applying delta `d` from square `i` yields.
pub open spec fn spec_apply_delta_index(i: StripIndex, d: Delta) -> DeltaResult {
    if i.0 + d.0 <= 13 {
        DeltaResult::Index(StripIndex((i.0 + d.0) as u8))
    } else if i.0 + d.0 == 14 {
        DeltaResult::Score
    } else {
        DeltaResult::OutOfBounds
    }
}

/// Whether square `i` is a flower square.
pub open spec fn spec_square(i: StripIndex) -> Square {
    if i.0 == 3 || i.0 == 7 || i.0 == 13 {
        Square::Flower
    } else {
        Square::Normal
    }
}

impl StripIndex {
    pub open spec fn wf(self) -> bool {
        self.0 <= 13
    }

    pub fn new(i: u8) -> (r: Option<StripIndex>)
        ensures
            r == (if i <= 13 {
                Some(StripIndex(i))
            } else {
                None::<StripIndex>
            }),
    {
        if i > 13 {
            None
        } else {
            Some(StripIndex(i))
        }
    }

    /// Squares 4 through 11 are shared between the two teams.
    pub fn both_teams_accessible(&self) -> (r: bool)
        ensures
            r == (4 <= self.0 <= 11),
    {
        4 <= self.0 && self.0 <= 11
    }

    pub fn apply_delta(self, d: Delta) -> (r: DeltaResult)
        requires
            self.wf(),
            d.wf(),
        ensures
            r == spec_apply_delta_index(self, d),
    {
        let new_i = self.0 + d.0;
        if new_i <= 13 {
            DeltaResult::Index(StripIndex(new_i))
        } else if new_i == 14 {
            DeltaResult::Score
        } else {
            DeltaResult::OutOfBounds
        }
    }

    /// The square a launch with delta `d` lands on.
    pub fn from_delta(d: Delta) -> (r: StripIndex)
        requires
            d.wf(),
        ensures
            r.0 == d.0 - 1,
            r.wf(),
    {
        StripIndex(d.0 - 1)
    }

    pub fn square(&self) -> (r: Square)
        ensures
            r == spec_square(*self),
    {
        if self.0 == 3 || self.0 == 7 || self.0 == 13 {
            Square::Flower
        } else {
            Square::Normal
        }
    }
}

impl Succ for StripIndex {
    fn first() -> Self {
        StripIndex(0)
    }

    fn succ(&self) -> Option<Self> {
        if self.0 >= 13 {
            None
        } else {
            Some(StripIndex(self.0 + 1))
        }
    }
}

/// Where a move starts: the bench, or an occupied square.
#[derive(Debug, Clone, Copy, PartialEq, Eq, Structural)]
pub enum MoveSource {
    Launch,
    Index(StripIndex),
}

/// Where a move from `source` with delta `d` lands.
pub open spec fn spec_apply_delta_source(source: MoveSource, d: Delta) -> DeltaResult {
    match source {
        MoveSource::Index(i) => spec_apply_delta_index(i, d),
        MoveSource::Launch => DeltaResult::Index(StripIndex((d.0 - 1) as u8)),
    }
}

impl MoveSource {
    pub open spec fn wf(self) -> bool {
        match self {
            MoveSource::Launch => true,
            MoveSource::Index(i) => i.wf(),
        }
    }

    pub fn apply_delta(self, d: Delta) -> (r: DeltaResult)
        requires
            self.wf(),
            d.wf(),
        ensures
            r == spec_apply_delta_source(self, d),
    {
        match self {
            MoveSource::Index(i) => i.apply_delta(d),
            MoveSource::Launch => DeltaResult::Index(StripIndex::from_delta(d)),
        }
    }
}

impl Succ for MoveSource {
    fn first() -> Self {
        MoveSource::Launch
    }

    fn succ(&self) -> Option<Self> {
        match self {
            MoveSource::Launch => Some(MoveSource::Index(StripIndex(0))),
            MoveSource::Index(index) => match index.succ() {
                Some(next) => Some(MoveSource::Index(next)),
                None => None,
            },
        }
    }
}

} // verus!
