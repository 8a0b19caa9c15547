//! The threshold map: a square Bayer matrix with toroidal sampling.

use crate::bayer::{
    base_rank, bayer_rank, interleave, lemma_finer_level_embeds_coarser,
    lemma_rank_below_cell_count, lemma_rank_is_injective, lemma_rank_wraps, MAX_POWER,
};
use crate::error::DitherError;
use vstd::arithmetic::div_mod::lemma_mod_add_multiples_vanish;
use vstd::arithmetic::power2::{
    lemma2_to64, lemma_pow2_adds, lemma_pow2_pos, lemma_pow2_strictly_increases,
    lemma_pow2_unfold, pow2,
};
use vstd::bits::{lemma_u32_pow2_no_overflow, lemma_u32_shl_is_mul};
use vstd::prelude::*;

verus! {

/// Largest level for which a threshold map is built: every threshold of
/// such a map is a fraction of at most 24 bits over a power of two.
pub const MAX_LEVEL: u32 = 11;

/// The Bayer matrix of side `2^power`, row by row.
pub open spec fn bayer_matrix(power: nat) -> Seq<Seq<nat>> {
    Seq::new(
        pow2(power),
        |row: int| Seq::new(pow2(power), |col: int| bayer_rank(power, row as nat, col as nat)),
    )
}

/// The ranks that nested vectors hold, as a matrix of naturals.
pub open spec fn ranks_of(cells: Vec<Vec<u32>>) -> Seq<Seq<nat>> {
    Seq::new(
        cells@.len(),
        |row: int| Seq::new(cells@[row]@.len(), |col: int| cells@[row]@[col] as nat),
    )
}

/// Represents the threshold map Bayer matrix used for dithering.
///
/// A cell holds a rank; the threshold it stands for is the rank divided by
/// the number of cells, a value in `[0, 1)`.
#[derive(Debug, PartialEq)]
pub struct ThresholdMap {
    level: u32,
    cells: Vec<Vec<u32>>,
}

impl View for ThresholdMap {
    type V = Seq<Seq<nat>>;

    /// The matrix of ranks, row by row.
    closed spec fn view(&self) -> Seq<Seq<nat>> {
        ranks_of(self.cells)
    }
}

impl ThresholdMap {
    /// The level that the map was generated for.
    pub closed spec fn spec_level(&self) -> nat {
        self.level as nat
    }

    /// The number of bits of a row or column index.
    pub open spec fn power(&self) -> nat {
        self.spec_level() + 1
    }

    /// The side of the matrix, `2^(level + 1)`.
    pub open spec fn spec_size(&self) -> nat {
        pow2(self.power())
    }

    /// The number of cells, by which a rank is divided to give a threshold.
    pub open spec fn spec_denominator(&self) -> nat {
        self.spec_size() * self.spec_size()
    }

    /// The rank found at `(x, y)` when the matrix tiles the plane.
    pub open spec fn spec_sample(&self, x: nat, y: nat) -> nat {
        self@[(y % self.spec_size()) as int][(x % self.spec_size()) as int]
    }

    /// A map is the Bayer matrix of its level, and its level is one at
    /// which thresholds are exact.
    #[verifier::type_invariant]
    pub open spec fn wf(&self) -> bool {
        &&& self.spec_level() <= MAX_LEVEL
        &&& self@ == bayer_matrix(self.power())
    }

    /// Generates a new threshold map with a given level *N*, where the
    /// resulting matrix is a square with 2 ^ (N + 1) rows and columns.
    ///
    /// Levels above [`MAX_LEVEL`] are refused.
    pub fn level(level: u32) -> (made: Result<ThresholdMap, DitherError>)
        ensures
            match made {
                Ok(map) => {
                    &&& level <= MAX_LEVEL
                    &&& map.wf()
                    &&& map.spec_level() == level
                    &&& map@ == bayer_matrix((level + 1) as nat)
                    &&& map@.len() == pow2((level + 1) as nat)
                    &&& forall|row: int|
                        0 <= row < map@.len() ==> (#[trigger] map@[row]).len() == map@.len()
                    &&& forall|row: int, col: int|
                        0 <= row < map@.len() && 0 <= col < map@.len() ==> 0 <= (
                        #[trigger] map@[row][col]) < map.spec_denominator()
                },
                Err(e) => level > MAX_LEVEL && e == DitherError::InvalidParameter,
            },
    {
        if level > MAX_LEVEL {
            return Err(DitherError::InvalidParameter);
        }
        let power: u32 = level + 1;
        proof {
            lemma_u32_pow2_no_overflow(power as nat);
            lemma_u32_shl_is_mul(1u32, power);
            lemma_pow2_strictly_increases(power as nat, 13);
            lemma2_to64();
        }
        let side: u32 = 1u32 << power;
        let size: usize = side as usize;
        let mut matrix: Vec<Vec<u32>> = Vec::new();
        let mut i: usize = 0;
        while i < size
            invariant
                power <= MAX_POWER,
                size == pow2(power as nat),
                size <= 4096,
                i <= size,
                matrix@.len() == i,
                forall|r: int| 0 <= r < i ==> (#[trigger] matrix@[r])@.len() == size,
                forall|r: int, c: int|
                    0 <= r < i && 0 <= c < size ==> (#[trigger] matrix@[r]@[c]) == bayer_rank(
                        power as nat,
                        r as nat,
                        c as nat,
                    ),
            decreases size - i,
        {
            let mut cells: Vec<u32> = Vec::new();
            let mut j: usize = 0;
            while j < size
                invariant
                    power <= MAX_POWER,
                    size <= 4096,
                    i < size,
                    j <= size,
                    cells@.len() == j,
                    forall|c: int|
                        0 <= c < j ==> (#[trigger] cells@[c]) == bayer_rank(
                            power as nat,
                            i as nat,
                            c as nat,
                        ),
                decreases size - j,
            {
                cells.push(interleave(power, i as u32, j as u32));
                j = j + 1;
            }
            matrix.push(cells);
            i = i + 1;
        }
        proof {
            assert(ranks_of(matrix) =~~= bayer_matrix(power as nat));
            assert forall|row: int, col: int|
                0 <= row < size && 0 <= col < size implies (#[trigger] ranks_of(
                matrix,
            )[row][col]) < pow2(power as nat) * pow2(power as nat) by {
                lemma_rank_below_cell_count(power as nat, row as nat, col as nat);
                lemma_pow2_adds(power as nat, power as nat);
            }
        }
        Ok(ThresholdMap { level, cells: matrix })
    }

    /// The side of the matrix.
    pub fn size(&self) -> (side: usize)
        ensures
            side == self.spec_size(),
            side == pow2(self.power()),
            2 <= side <= 4096,
    {
        proof {
            use_type_invariant(self);
            assert(self@.len() == self.cells@.len());
            assert(bayer_matrix(self.power()).len() == pow2(self.power()));
            lemma2_to64();
            lemma_pow2_strictly_increases(0, self.power());
            if self.power() < 12 {
                lemma_pow2_strictly_increases(self.power(), 12);
            }
        }
        self.cells.len()
    }

    /// The number of cells of the matrix: a threshold is the sampled rank
    /// over this number.
    pub fn denominator(&self) -> (cells: u32)
        ensures
            cells == self.spec_denominator(),
            cells == pow2(2 * self.power()),
            4 <= cells <= 0x100_0000,
    {
        let side: usize = self.size();
        proof {
            lemma_pow2_adds(self.power(), self.power());
            assert(4 <= side * side <= 0x100_0000) by (nonlinear_arith)
                requires
                    2 <= side <= 4096,
            ;
        }
        (side * side) as u32
    }

    /// Sample this threshold at the given x and y coordinates, wrapping
    /// around as necessary: `y` selects the row and `x` the column. The
    /// threshold is the returned rank over [`ThresholdMap::denominator`].
    pub fn sample(&self, x: usize, y: usize) -> (rank: u32)
        ensures
            rank == self.spec_sample(x as nat, y as nat),
            rank == bayer_rank(
                self.power(),
                (y as nat) % self.spec_size(),
                (x as nat) % self.spec_size(),
            ),
            rank < self.spec_denominator(),
    {
        let size: usize = self.size();
        proof {
            use_type_invariant(self);
            let row: int = (y % size) as int;
            let col: int = (x % size) as int;
            assert(self@.len() == self.cells@.len());
            assert(bayer_matrix(self.power()).len() == pow2(self.power()));
            assert(self@[row].len() == self.cells@[row]@.len());
            assert(bayer_matrix(self.power())[row].len() == pow2(self.power()));
            assert(self@[row][col] == self.cells@[row]@[col]);
            lemma_rank_below_cell_count(
                self.power(),
                (y as nat) % self.spec_size(),
                (x as nat) % self.spec_size(),
            );
            lemma_pow2_adds(self.power(), self.power());
        }
        self.cells[y % size][x % size]
    }
}

/// The matrix of a map is square with side `2^(level + 1)`, and each of
/// its thresholds, a rank over the number of cells, lies in `[0, 1)`.
pub proof fn lemma_square_with_unit_thresholds(map: ThresholdMap)
    requires
        map.wf(),
    ensures
        map@.len() == map.spec_size(),
        map.spec_size() == pow2(map.spec_level() + 1),
        forall|row: int|
            0 <= row < map.spec_size() ==> (#[trigger] map@[row]).len() == map.spec_size(),
        forall|row: int, col: int|
            0 <= row < map.spec_size() && 0 <= col < map.spec_size() ==> 0 <= (
            #[trigger] map@[row][col]) < map.spec_denominator(),
        forall|x: nat, y: nat| 0 <= #[trigger] map.spec_sample(x, y) < map.spec_denominator(),
{
    let power: nat = map.power();
    let side: nat = map.spec_size();
    lemma_pow2_pos(power);
    lemma_pow2_adds(power, power);
    assert forall|row: int, col: int| 0 <= row < side && 0 <= col < side implies 0 <= (
    #[trigger] map@[row][col]) < map.spec_denominator() by {
        lemma_rank_below_cell_count(power, row as nat, col as nat);
    }
    assert forall|x: nat, y: nat|
        0 <= #[trigger] map.spec_sample(x, y) < map.spec_denominator() by {
        lemma_sample_is_rank(map, x, y);
    }
}

/// A sample is the Bayer rank at the wrapped coordinates: the row is `y`
/// and the column is `x`, each modulo the side. As the rank reads only
/// the low bits of its coordinates, the wrapping may as well be left out.
pub proof fn lemma_sample_is_rank(map: ThresholdMap, x: nat, y: nat)
    requires
        map.wf(),
    ensures
        map.spec_sample(x, y) == bayer_rank(
            map.power(),
            y % map.spec_size(),
            x % map.spec_size(),
        ),
        map.spec_sample(x, y) == bayer_rank(map.power(), y, x),
        map.spec_sample(x, y) < map.spec_denominator(),
{
    let power: nat = map.power();
    let side: nat = map.spec_size();
    lemma_pow2_pos(power);
    lemma_pow2_adds(power, power);
    let row: int = (y % side) as int;
    let col: int = (x % side) as int;
    assert(0 <= row < side && 0 <= col < side);
    assert(map@[row][col] == bayer_rank(power, row as nat, col as nat));
    lemma_rank_below_cell_count(power, row as nat, col as nat);
    lemma_rank_wraps(power, y, x);
}

/// The map of the next level embeds this one: it holds four times the
/// coarser rank, plus the entry of the base pattern for the quadrant in
/// which the coordinates fall.
pub proof fn lemma_next_level_embeds(coarse: ThresholdMap, fine: ThresholdMap, x: nat, y: nat)
    requires
        coarse.wf(),
        fine.wf(),
        fine.spec_level() == coarse.spec_level() + 1,
    ensures
        fine.spec_size() == 2 * coarse.spec_size(),
        fine.spec_denominator() == 4 * coarse.spec_denominator(),
        fine.spec_sample(x, y) == 4 * coarse.spec_sample(x, y) + base_rank(
            (y / coarse.spec_size()) % 2,
            (x / coarse.spec_size()) % 2,
        ),
{
    let side: nat = coarse.spec_size();
    lemma_pow2_unfold(fine.power());
    assert((2 * side) * (2 * side) == 4 * (side * side)) by (nonlinear_arith);
    lemma_sample_is_rank(coarse, x, y);
    lemma_sample_is_rank(fine, x, y);
    lemma_finer_level_embeds_coarser(coarse.power(), y, x);
}

/// Sampling wraps toroidally: moving by one side along either axis finds
/// the same threshold.
pub proof fn lemma_sample_wraps(map: ThresholdMap, x: nat, y: nat)
    requires
        map.wf(),
    ensures
        map.spec_sample(x, y) == map.spec_sample(x + map.spec_size(), y),
        map.spec_sample(x, y) == map.spec_sample(x, y + map.spec_size()),
{
    let side: int = map.spec_size() as int;
    lemma_pow2_pos(map.power());
    lemma_mod_add_multiples_vanish(x as int, side);
    lemma_mod_add_multiples_vanish(y as int, side);
}

/// Generation is deterministic: two maps of the same level hold the same
/// matrix and give the same sample everywhere.
pub proof fn lemma_level_determines_map(first: ThresholdMap, second: ThresholdMap)
    requires
        first.wf(),
        second.wf(),
        first.spec_level() == second.spec_level(),
    ensures
        first@ == second@,
        first.spec_size() == second.spec_size(),
        first.spec_denominator() == second.spec_denominator(),
        forall|x: nat, y: nat| first.spec_sample(x, y) == second.spec_sample(x, y),
{
}

/// Within one period no two positions share a threshold.
pub proof fn lemma_thresholds_are_distinct(
    map: ThresholdMap,
    x_a: nat,
    y_a: nat,
    x_b: nat,
    y_b: nat,
)
    requires
        map.wf(),
        x_a < map.spec_size(),
        y_a < map.spec_size(),
        x_b < map.spec_size(),
        y_b < map.spec_size(),
        map.spec_sample(x_a, y_a) == map.spec_sample(x_b, y_b),
    ensures
        x_a == x_b,
        y_a == y_b,
{
    lemma_sample_is_rank(map, x_a, y_a);
    lemma_sample_is_rank(map, x_b, y_b);
    lemma_rank_is_injective(map.power(), y_a, x_a, y_b, x_b);
}

} // verus!
