use vstd::prelude::*;

verus! {

/// Squares are numbered `rank * 8 + file`; rank 0 is rank "1" and file 0 is file "a".
pub open spec fn rank_spec(s: int) -> int {
    s / 8
}

pub open spec fn file_spec(s: int) -> int {
    s % 8
}

pub open spec fn is_square(s: int) -> bool {
    0 <= s < 64
}

pub open spec fn on_board(r: int, f: int) -> bool {
    0 <= r < 8 && 0 <= f < 8
}

/// `k` steps in direction `d`, where `d` is -1, 0 or 1.
pub open spec fn dir_mul(k: int, d: int) -> int {
    if d > 0 {
        k
    } else if d < 0 {
        -k
    } else {
        0
    }
}

/// Bit `k` of `x`.
pub open spec fn bit(x: u64, k: u64) -> bool {
    (x >> k) & 1u64 == 1u64
}

/// Number of set bits among the lowest `n` bits of `x`.
pub open spec fn ones_below(x: u64, n: nat) -> nat
    decreases n,
{
    if n == 0 {
        0
    } else {
        ones_below(x, (n - 1) as nat) + if bit(x, (n - 1) as u64) {
            1nat
        } else {
            0nat
        }
    }
}

pub const FILE_A: u64 = 0x0101010101010101;

pub const FILE_H: u64 = 0x8080808080808080;

/// The eight compass directions; north is towards rank "8", east towards file "h".
#[derive(Clone, Copy, PartialEq, Eq, Structural, Debug)]
pub enum Direction {
    North,
    South,
    East,
    West,
    NorthEast,
    NorthWest,
    SouthEast,
    SouthWest,
}

impl Direction {
    /// Rank delta of one step.
    pub open spec fn dr(self) -> int {
        match self {
            Direction::North | Direction::NorthEast | Direction::NorthWest => 1,
            Direction::South | Direction::SouthEast | Direction::SouthWest => -1,
            _ => 0,
        }
    }

    /// File delta of one step.
    pub open spec fn df(self) -> int {
        match self {
            Direction::East | Direction::NorthEast | Direction::SouthEast => 1,
            Direction::West | Direction::NorthWest | Direction::SouthWest => -1,
            _ => 0,
        }
    }
}

/// A set of squares: bit `i` is set exactly when square `i` is a member.
#[derive(Clone, Copy, PartialEq, Eq, Structural, Debug)]
pub struct Bitboard(pub u64);

pub proof fn lemma_bitops(x: u64, y: u64, k: u64)
    by (bit_vector)
    requires
        k < 64,
    ensures
        bit(x & y, k) == (bit(x, k) && bit(y, k)),
        bit(x | y, k) == (bit(x, k) || bit(y, k)),
        bit(x ^ y, k) == (bit(x, k) != bit(y, k)),
        bit(!x, k) == !bit(x, k),
        !bit(0u64, k),
        bit(0xffff_ffff_ffff_ffffu64, k),
{
}

proof fn lemma_single(s: u64, k: u64)
    by (bit_vector)
    requires
        s < 64,
        k < 64,
    ensures
        bit(1u64 << s, k) == (k == s),
{
}

pub proof fn lemma_eq_bits(x: u64, y: u64)
    requires
        forall|k: u64| k < 64 ==> bit(x, k) == bit(y, k),
    ensures
        x == y,
{
    assert(forall|k: u64| k < 64 ==> #[trigger] bit(x ^ y, k) == (bit(x, k) != bit(y, k))) by {
        assert forall|k: u64| k < 64 implies #[trigger] bit(x ^ y, k) == (bit(x, k) != bit(
            y,
            k,
        )) by {
            lemma_bitops(x, y, k);
        }
    }
    lemma_zero_bits(x ^ y);
    assert(x == y) by (bit_vector)
        requires
            x ^ y == 0,
    ;
}

pub proof fn lemma_zero_bits(z: u64)
    requires
        forall|k: u64| k < 64 ==> !#[trigger] bit(z, k),
    ensures
        z == 0,
{
    assert(!bit(z, 0) && !bit(z, 1) && !bit(z, 2) && !bit(z, 3) && !bit(z, 4) && !bit(z, 5)
        && !bit(z, 6) && !bit(z, 7) && !bit(z, 8) && !bit(z, 9) && !bit(z, 10) && !bit(z, 11)
        && !bit(z, 12) && !bit(z, 13) && !bit(z, 14) && !bit(z, 15) && !bit(z, 16) && !bit(z, 17)
        && !bit(z, 18) && !bit(z, 19) && !bit(z, 20) && !bit(z, 21) && !bit(z, 22) && !bit(z, 23)
        && !bit(z, 24) && !bit(z, 25) && !bit(z, 26) && !bit(z, 27) && !bit(z, 28) && !bit(z, 29)
        && !bit(z, 30) && !bit(z, 31) && !bit(z, 32) && !bit(z, 33) && !bit(z, 34) && !bit(z, 35)
        && !bit(z, 36) && !bit(z, 37) && !bit(z, 38) && !bit(z, 39) && !bit(z, 40) && !bit(z, 41)
        && !bit(z, 42) && !bit(z, 43) && !bit(z, 44) && !bit(z, 45) && !bit(z, 46) && !bit(z, 47)
        && !bit(z, 48) && !bit(z, 49) && !bit(z, 50) && !bit(z, 51) && !bit(z, 52) && !bit(z, 53)
        && !bit(z, 54) && !bit(z, 55) && !bit(z, 56) && !bit(z, 57) && !bit(z, 58) && !bit(z, 59)
        && !bit(z, 60) && !bit(z, 61) && !bit(z, 62) && !bit(z, 63));
    lemma_zero_from_bits(z);
}

proof fn lemma_zero_from_bits(z: u64)
    by (bit_vector)
    requires
        !bit(z, 0) && !bit(z, 1) && !bit(z, 2) && !bit(z, 3) && !bit(z, 4) && !bit(z, 5) && !bit(
            z,
            6,
        ) && !bit(z, 7) && !bit(z, 8) && !bit(z, 9) && !bit(z, 10) && !bit(z, 11) && !bit(z, 12)
            && !bit(z, 13) && !bit(z, 14) && !bit(z, 15) && !bit(z, 16) && !bit(z, 17) && !bit(
            z,
            18,
        ) && !bit(z, 19) && !bit(z, 20) && !bit(z, 21) && !bit(z, 22) && !bit(z, 23) && !bit(
            z,
            24,
        ) && !bit(z, 25) && !bit(z, 26) && !bit(z, 27) && !bit(z, 28) && !bit(z, 29) && !bit(
            z,
            30,
        ) && !bit(z, 31) && !bit(z, 32) && !bit(z, 33) && !bit(z, 34) && !bit(z, 35) && !bit(
            z,
            36,
        ) && !bit(z, 37) && !bit(z, 38) && !bit(z, 39) && !bit(z, 40) && !bit(z, 41) && !bit(
            z,
            42,
        ) && !bit(z, 43) && !bit(z, 44) && !bit(z, 45) && !bit(z, 46) && !bit(z, 47) && !bit(
            z,
            48,
        ) && !bit(z, 49) && !bit(z, 50) && !bit(z, 51) && !bit(z, 52) && !bit(z, 53) && !bit(
            z,
            54,
        ) && !bit(z, 55) && !bit(z, 56) && !bit(z, 57) && !bit(z, 58) && !bit(z, 59) && !bit(
            z,
            60,
        ) && !bit(z, 61) && !bit(z, 62) && !bit(z, 63),
    ensures
        z == 0,
{
}

proof fn lemma_below_lowest(x: u64, z: u64, t: u64)
    by (bit_vector)
    requires
        z < 64,
        x << ((64 - z) as u64) == 0,
        t < z,
    ensures
        !bit(x, t),
{
}

proof fn lemma_clear_lowest(x: u64, z: u64, k: u64)
    by (bit_vector)
    requires
        z < 64,
        k < 64,
        bit(x, z),
        x << ((64 - z) as u64) == 0,
    ensures
        bit(x & ((x - 1) as u64), k) == (bit(x, k) && k != z),
{
}

pub proof fn lemma_lowest(b: Bitboard)
    ensures
        b.0 == 0 <==> b.is_empty_set(),
        b.0 == 0 <==> b.lowest() == 64,
        b.0 != 0 ==> 0 <= b.lowest() < 64 && b.has(b.lowest()),
        b.0 != 0 ==> forall|t: int| 0 <= t < b.lowest() ==> !#[trigger] b.has(t),
        b.lowest() <= 64,
{
    vstd::std_specs::bits::axiom_u64_trailing_zeros(b.0);
    let z = b.lowest();
    if b.0 == 0 {
        assert forall|s: int| !#[trigger] b.has(s) by {
            if is_square(s) {
                lemma_bitops(0, 0, s as u64);
            }
        }
    } else {
        assert forall|t: int| 0 <= t < z implies !#[trigger] b.has(t) by {
            lemma_below_lowest(b.0, z as u64, t as u64);
        }
        assert(b.has(z));
    }
}

proof fn lemma_shifts(x: u64, k: u64)
    by (bit_vector)
    requires
        k < 64,
    ensures
        k & 7 == k % 8,
        bit(x << 8u64, k) == (k >= 8 && bit(x, (k - 8) as u64)),
        bit(x >> 8u64, k) == (k < 56 && bit(x, (k + 8) as u64)),
        bit((x & !FILE_H) << 1u64, k) == (k & 7 != 0 && bit(x, (k - 1) as u64)),
        bit((x & !FILE_A) >> 1u64, k) == (k & 7 != 7 && bit(x, (k + 1) as u64)),
        bit((x & !FILE_H) << 9u64, k) == (k >= 8 && k & 7 != 0 && bit(x, (k - 9) as u64)),
        bit((x & !FILE_A) << 7u64, k) == (k >= 8 && k & 7 != 7 && bit(x, (k - 7) as u64)),
        bit((x & !FILE_H) >> 7u64, k) == (k < 56 && k & 7 != 0 && bit(x, (k + 7) as u64)),
        bit((x & !FILE_A) >> 9u64, k) == (k < 56 && k & 7 != 7 && bit(x, (k + 9) as u64)),
{
}

impl Bitboard {
    /// Membership of square `s`.
    pub open spec fn has(self, s: int) -> bool {
        is_square(s) && bit(self.0, s as u64)
    }

    pub open spec fn is_empty_set(self) -> bool {
        forall|s: int| !#[trigger] self.has(s)
    }

    pub open spec fn count_spec(self) -> nat {
        ones_below(self.0, 64)
    }

    /// Index of the lowest member.
    pub open spec fn lowest(self) -> int {
        vstd::std_specs::bits::u64_trailing_zeros(self.0) as int
    }

    pub fn new(n: u64) -> (r: Bitboard)
        ensures
            r.0 == n,
    {
        Bitboard(n)
    }

    pub fn empty() -> (r: Bitboard)
        ensures
            r.0 == 0,
            r.is_empty_set(),
    {
        proof {
            assert forall|s: int| !#[trigger] Bitboard(0).has(s) by {
                if is_square(s) {
                    lemma_bitops(0, 0, s as u64);
                }
            }
        }
        Bitboard(0)
    }

    pub fn single(sq: u32) -> (r: Bitboard)
        requires
            sq < 64,
        ensures
            forall|s: int| #[trigger] r.has(s) == (s == sq),
    {
        let r = Bitboard(1u64 << sq);
        proof {
            assert forall|s: int| #[trigger] r.has(s) == (s == sq) by {
                if is_square(s) {
                    lemma_single(sq as u64, s as u64);
                }
            }
        }
        r
    }

    pub fn union(self, o: Bitboard) -> (r: Bitboard)
        ensures
            forall|s: int| #[trigger] r.has(s) == (self.has(s) || o.has(s)),
    {
        let r = Bitboard(self.0 | o.0);
        proof {
            assert forall|s: int| #[trigger] r.has(s) == (self.has(s) || o.has(s)) by {
                if is_square(s) {
                    lemma_bitops(self.0, o.0, s as u64);
                }
            }
        }
        r
    }

    pub fn intersect(self, o: Bitboard) -> (r: Bitboard)
        ensures
            forall|s: int| #[trigger] r.has(s) == (self.has(s) && o.has(s)),
    {
        let r = Bitboard(self.0 & o.0);
        proof {
            assert forall|s: int| #[trigger] r.has(s) == (self.has(s) && o.has(s)) by {
                if is_square(s) {
                    lemma_bitops(self.0, o.0, s as u64);
                }
            }
        }
        r
    }

    pub fn symmetric_difference(self, o: Bitboard) -> (r: Bitboard)
        ensures
            forall|s: int| #[trigger] r.has(s) == (self.has(s) != o.has(s)),
    {
        let r = Bitboard(self.0 ^ o.0);
        proof {
            assert forall|s: int| #[trigger] r.has(s) == (self.has(s) != o.has(s)) by {
                if is_square(s) {
                    lemma_bitops(self.0, o.0, s as u64);
                }
            }
        }
        r
    }

    pub fn complement(self) -> (r: Bitboard)
        ensures
            forall|s: int| #[trigger] r.has(s) == (is_square(s) && !self.has(s)),
    {
        let r = Bitboard(!self.0);
        proof {
            assert forall|s: int| #[trigger] r.has(s) == (is_square(s) && !self.has(s)) by {
                if is_square(s) {
                    lemma_bitops(self.0, 0, s as u64);
                }
            }
        }
        r
    }

    /// Whether square `i` is a member.
    pub fn is_bit_set(self, i: u32) -> (r: bool)
        requires
            i < 64,
        ensures
            r == self.has(i as int),
    {
        (self.0 >> i) & 1 == 1
    }

    pub fn set(self, sq: u32) -> (r: Bitboard)
        requires
            sq < 64,
        ensures
            forall|s: int| #[trigger] r.has(s) == (self.has(s) || s == sq),
    {
        self.union(Bitboard::single(sq))
    }

    pub fn clear(self, sq: u32) -> (r: Bitboard)
        requires
            sq < 64,
        ensures
            forall|s: int| #[trigger] r.has(s) == (self.has(s) && s != sq),
    {
        self.intersect(Bitboard::single(sq).complement())
    }

    /// Number of members.
    pub fn count_set(self) -> (r: u32)
        ensures
            r == self.count_spec(),
    {
        let mut c: u32 = 0;
        let mut i: u64 = 0;
        while i < 64
            invariant
                i <= 64,
                c == ones_below(self.0, i as nat),
                c <= i,
            decreases 64 - i,
        {
            if (self.0 >> i) & 1 == 1 {
                c = c + 1;
            }
            i = i + 1;
        }
        c
    }

    /// The lowest member, if any.
    pub fn least_significant_square(self) -> (r: Option<u32>)
        ensures
            r is None <==> self.is_empty_set(),
            r matches Some(s) ==> s == self.lowest() && s < 64 && self.has(s as int),
            r matches Some(s) ==> forall|t: int| 0 <= t < s ==> !#[trigger] self.has(t),
    {
        proof {
            lemma_lowest(self);
        }
        if self.0 == 0 {
            None
        } else {
            Some(self.0.trailing_zeros())
        }
    }

    /// The same set without its lowest member.
    pub fn without_least_significant(self) -> (r: Bitboard)
        ensures
            forall|s: int| #[trigger] r.has(s) == (self.has(s) && s != self.lowest()),
    {
        proof {
            lemma_lowest(self);
        }
        if self.0 == 0 {
            self
        } else {
            let r = Bitboard(self.0 & (self.0 - 1));
            proof {
                let z = self.lowest();
                assert forall|s: int| #[trigger] r.has(s) == (self.has(s) && s != z) by {
                    if is_square(s) {
                        lemma_clear_lowest(self.0, z as u64, s as u64);
                    }
                }
            }
            r
        }
    }

    /// The set moved one step in direction `d`; members that would leave the
    /// board, across an edge file or past the last rank, are dropped.
    pub fn shifted(self, d: Direction) -> (r: Bitboard)
        ensures
            forall|t: int| #[trigger]
                r.has(t) == (is_square(t) && on_board(rank_spec(t) - d.dr(), file_spec(t) - d.df())
                    && self.has(t - 8 * d.dr() - d.df())),
    {
        let x = self.0;
        let v = match d {
            Direction::North => x << 8u64,
            Direction::South => x >> 8u64,
            Direction::East => (x & !FILE_H) << 1u64,
            Direction::West => (x & !FILE_A) >> 1u64,
            Direction::NorthEast => (x & !FILE_H) << 9u64,
            Direction::NorthWest => (x & !FILE_A) << 7u64,
            Direction::SouthEast => (x & !FILE_H) >> 7u64,
            Direction::SouthWest => (x & !FILE_A) >> 9u64,
        };
        let r = Bitboard(v);
        proof {
            assert forall|t: int| #[trigger]
                r.has(t) == (is_square(t) && on_board(rank_spec(t) - d.dr(), file_spec(t) - d.df())
                    && self.has(t - 8 * d.dr() - d.df())) by {
                if is_square(t) {
                    lemma_shifts(x, t as u64);
                }
            }
        }
        r
    }
    /// The set moved `n` steps in direction `d`; members that would leave the
    /// board on the way are dropped.
    pub fn shifted_by(self, d: Direction, n: u32) -> (r: Bitboard)
        ensures
            forall|t: int| #[trigger]
                r.has(t) == (is_square(t) && on_board(
                    rank_spec(t) - dir_mul(n as int, d.dr()),
                    file_spec(t) - dir_mul(n as int, d.df()),
                ) && self.has(t - 8 * dir_mul(n as int, d.dr()) - dir_mul(n as int, d.df()))),
    {
        let mut r = self;
        let mut k: u32 = 0;
        while k < n
            invariant
                k <= n,
                forall|t: int| #[trigger]
                    r.has(t) == (is_square(t) && on_board(
                        rank_spec(t) - dir_mul(k as int, d.dr()),
                        file_spec(t) - dir_mul(k as int, d.df()),
                    ) && self.has(t - 8 * dir_mul(k as int, d.dr()) - dir_mul(k as int, d.df()))),
            decreases n - k,
        {
            let prev = r;
            r = prev.shifted(d);
            proof {
                assert forall|t: int| #[trigger]
                    r.has(t) == (is_square(t) && on_board(
                        rank_spec(t) - dir_mul(k + 1, d.dr()),
                        file_spec(t) - dir_mul(k + 1, d.df()),
                    ) && self.has(t - 8 * dir_mul(k + 1, d.dr()) - dir_mul(k + 1, d.df()))) by {
                    if is_square(t) {
                        crate::moves::lemma_square(t);
                        let u = t - 8 * d.dr() - d.df();
                        if on_board(rank_spec(t) - d.dr(), file_spec(t) - d.df()) {
                            crate::moves::lemma_coords(rank_spec(t) - d.dr(), file_spec(t) - d.df());
                            assert(prev.has(u) == (is_square(u) && on_board(
                                rank_spec(u) - dir_mul(k as int, d.dr()),
                                file_spec(u) - dir_mul(k as int, d.df()),
                            ) && self.has(u - 8 * dir_mul(k as int, d.dr()) - dir_mul(k as int, d.df()))));
                        }
                    }
                }
            }
            k = k + 1;
        }
        r
    }
}

} // verus!
