//! The Bayer rank function: the mathematical content of a threshold map,
//! and the bit-interleaving routine that computes it.

use vstd::arithmetic::div_mod::{
    lemma_div_denominator, lemma_fundamental_div_mod_converse, lemma_mod_breakdown,
};
use vstd::arithmetic::power2::{
    lemma2_to64, lemma_pow2_adds, lemma_pow2_pos, lemma_pow2_unfold, pow2,
};
use vstd::bits::{lemma_u32_pow2_no_overflow, lemma_u32_shl_is_mul};
use vstd::prelude::*;

verus! {

/// Largest exponent `power` for which a matrix of side `2^power` is built.
///
/// A rank of such a matrix has `2 * power` bits. With `power <= 12` every
/// rank is below `2^24`, so rank and denominator are both exact in single
/// precision, and the quotient of the two is exact as well.
pub const MAX_POWER: u32 = 12;

/// The base pattern of the Bayer construction, `[[0, 3], [2, 1]]`,
/// indexed by one bit of the row and one bit of the column.
pub open spec fn base_rank(row_bit: nat, col_bit: nat) -> nat {
    if row_bit == 0 {
        if col_bit == 0 {
            0
        } else {
            3
        }
    } else {
        if col_bit == 0 {
            2
        } else {
            1
        }
    }
}

/// The rank that the Bayer matrix of side `2^power` holds at `(row, col)`.
///
/// The rank is a number of `power` base-4 digits. The lowest bits of `row`
/// and `col` choose the most significant digit from the base pattern; the
/// remaining bits choose the remaining digits in the same way. Only the low
/// `power` bits of `row` and `col` are read.
pub open spec fn bayer_rank(power: nat, row: nat, col: nat) -> nat
    decreases power,
{
    if power == 0 {
        0
    } else {
        base_rank(row % 2, col % 2) * pow2((2 * (power - 1)) as nat) + bayer_rank(
            (power - 1) as nat,
            row / 2,
            col / 2,
        )
    }
}

/// Every rank of the matrix of side `2^power` is below `2^(2 * power)`,
/// the number of its cells.
pub proof fn lemma_rank_below_cell_count(power: nat, row: nat, col: nat)
    ensures
        bayer_rank(power, row, col) < pow2(2 * power),
    decreases power,
{
    if power == 0 {
        lemma2_to64();
    } else {
        let rest: nat = (power - 1) as nat;
        lemma_rank_below_cell_count(rest, row / 2, col / 2);
        lemma_pow2_adds(2 * rest, 2);
        lemma2_to64();
        let place: nat = pow2(2 * rest);
        let digit: nat = base_rank(row % 2, col % 2);
        assert(digit * place <= 3 * place) by (nonlinear_arith)
            requires
                digit <= 3,
        ;
        assert(pow2(2 * power) == place * 4);
    }
}

/// The rank reads only the low `power` bits of its coordinates, so the
/// pattern repeats with period `2^power` along both axes.
pub proof fn lemma_rank_wraps(power: nat, row: nat, col: nat)
    ensures
        bayer_rank(power, row % pow2(power), col % pow2(power)) == bayer_rank(power, row, col),
    decreases power,
{
    if power > 0 {
        let rest: nat = (power - 1) as nat;
        let half: nat = pow2(rest);
        lemma_pow2_pos(rest);
        lemma_pow2_unfold(power);
        lemma_mod_breakdown(row as int, 2, half as int);
        lemma_mod_breakdown(col as int, 2, half as int);
        let wrapped_row: nat = row % pow2(power);
        let wrapped_col: nat = col % pow2(power);
        assert(wrapped_row % 2 == row % 2 && wrapped_row / 2 == (row / 2) % half);
        assert(wrapped_col % 2 == col % 2 && wrapped_col / 2 == (col / 2) % half);
        lemma_rank_wraps(rest, row / 2, col / 2);
    } else {
        lemma_pow2_pos(power);
    }
}

/// A finer level embeds the coarser pattern: one more bit of each
/// coordinate multiplies the rank by four and adds the entry that the
/// base pattern holds for the new bits. Within the matrix of side
/// `2^(power + 1)` this is the tiling of four copies of the coarser matrix,
/// each scaled by four and offset by the base pattern's entry for its
/// quadrant.
pub proof fn lemma_finer_level_embeds_coarser(power: nat, row: nat, col: nat)
    ensures
        bayer_rank(power + 1, row, col) == 4 * bayer_rank(power, row, col) + base_rank(
            (row / pow2(power)) % 2,
            (col / pow2(power)) % 2,
        ),
        row < pow2(power + 1) && col < pow2(power + 1) ==> bayer_rank(power + 1, row, col) == 4
            * bayer_rank(power, row % pow2(power), col % pow2(power)) + base_rank(
            row / pow2(power),
            col / pow2(power),
        ),
    decreases power,
{
    lemma2_to64();
    lemma_pow2_pos(power);
    lemma_pow2_unfold(power + 1);
    lemma_rank_wraps(power, row, col);
    if power > 0 {
        let rest: nat = (power - 1) as nat;
        lemma_finer_level_embeds_coarser(rest, row / 2, col / 2);
        lemma_pow2_pos(rest);
        lemma_pow2_unfold(power);
        lemma_pow2_adds(2 * rest, 2);
        lemma_div_denominator(row as int, 2, pow2(rest) as int);
        lemma_div_denominator(col as int, 2, pow2(rest) as int);
        let digit: nat = base_rank(row % 2, col % 2);
        let place: nat = pow2(2 * rest);
        assert(pow2(2 * power) == 4 * place);
        assert(digit * (4 * place) == 4 * (digit * place)) by (nonlinear_arith);
        assert((row / 2) / pow2(rest) == row / pow2(power));
        assert((col / 2) / pow2(rest) == col / pow2(power));
    } else {
        assert(bayer_rank(0, row / 2, col / 2) == 0);
    }
}

/// No two cells of a matrix hold the same rank.
pub proof fn lemma_rank_is_injective(
    power: nat,
    row_a: nat,
    col_a: nat,
    row_b: nat,
    col_b: nat,
)
    requires
        row_a < pow2(power),
        col_a < pow2(power),
        row_b < pow2(power),
        col_b < pow2(power),
        bayer_rank(power, row_a, col_a) == bayer_rank(power, row_b, col_b),
    ensures
        row_a == row_b,
        col_a == col_b,
    decreases power,
{
    lemma2_to64();
    if power > 0 {
        let rest: nat = (power - 1) as nat;
        let place: nat = pow2(2 * rest);
        lemma_pow2_pos(2 * rest);
        lemma_pow2_unfold(power);
        lemma_rank_below_cell_count(rest, row_a / 2, col_a / 2);
        lemma_rank_below_cell_count(rest, row_b / 2, col_b / 2);
        let digit_a: nat = base_rank(row_a % 2, col_a % 2);
        let digit_b: nat = base_rank(row_b % 2, col_b % 2);
        let rest_a: nat = bayer_rank(rest, row_a / 2, col_a / 2);
        let rest_b: nat = bayer_rank(rest, row_b / 2, col_b / 2);
        let rank: nat = bayer_rank(power, row_a, col_a);
        lemma_fundamental_div_mod_converse(
            rank as int,
            place as int,
            digit_a as int,
            rest_a as int,
        );
        lemma_fundamental_div_mod_converse(
            rank as int,
            place as int,
            digit_b as int,
            rest_b as int,
        );
        lemma_rank_is_injective(rest, row_a / 2, col_a / 2, row_b / 2, col_b / 2);
    }
}

/// Every rank below the number of cells is held by a cell of the matrix:
/// the returned `(row, col)` is the one that holds `rank`.
pub proof fn lemma_every_rank_occurs(power: nat, rank: nat) -> (cell: (nat, nat))
    requires
        rank < pow2(2 * power),
    ensures
        cell.0 < pow2(power),
        cell.1 < pow2(power),
        bayer_rank(power, cell.0, cell.1) == rank,
    decreases power,
{
    lemma2_to64();
    if power == 0 {
        (0, 0)
    } else {
        let rest: nat = (power - 1) as nat;
        let place: nat = pow2(2 * rest);
        lemma_pow2_pos(2 * rest);
        lemma_pow2_adds(2 * rest, 2);
        lemma_pow2_unfold(power);
        let digit: nat = rank / place;
        let low: nat = rank % place;
        assert(rank == digit * place + low && low < place && digit <= 3) by (nonlinear_arith)
            requires
                digit == rank / place,
                low == rank % place,
                place > 0,
                rank < 4 * place,
        ;
        let inner: (nat, nat) = lemma_every_rank_occurs(rest, low);
        let row_bit: nat = if digit == 1 || digit == 2 {
            1
        } else {
            0
        };
        let col_bit: nat = if digit == 1 || digit == 3 {
            1
        } else {
            0
        };
        let row: nat = 2 * inner.0 + row_bit;
        let col: nat = 2 * inner.1 + col_bit;
        assert(row % 2 == row_bit && row / 2 == inner.0);
        assert(col % 2 == col_bit && col / 2 == inner.1);
        assert(base_rank(row_bit, col_bit) == digit);
        (row, col)
    }
}

/// Interleaves the bits of `col` and of `row ^ col`, most significant bit
/// first, into ascending bit positions of the result.
pub(crate) fn interleave(power: u32, row: u32, col: u32) -> (rank: u32)
    requires
        power <= MAX_POWER,
    ensures
        rank == bayer_rank(power as nat, row as nat, col as nat),
{
    let a: u32 = row ^ col;
    let mut result: u32 = 0;
    let mut bit: u32 = 0;
    let mut mask: u32 = power;
    assert(row >> 0u32 == row) by (bit_vector);
    assert(col >> 0u32 == col) by (bit_vector);
    while mask > 0
        invariant
            mask <= power <= MAX_POWER,
            bit == 2 * (power - mask),
            a == row ^ col,
            row >> 0u32 == row,
            col >> 0u32 == col,
            result == bayer_rank((power - mask) as nat, (row >> mask) as nat, (col >> mask) as nat),
        decreases mask,
    {
        let above: u32 = mask;
        mask = mask - 1;
        let col_bit: u32 = (col >> mask) & 1;
        let xor_bit: u32 = (a >> mask) & 1;
        let next_bit: u32 = bit + 1;
        proof {
            let done: nat = (power - above) as nat;
            let place: u32 = 1u32 << bit;
            lemma_rank_below_cell_count(done, (row >> above) as nat, (col >> above) as nat);
            lemma_u32_pow2_no_overflow(bit as nat);
            lemma_u32_shl_is_mul(1u32, bit);
            assert(place == pow2(2 * done));
            assert((row >> mask) / 2 == row >> above && (col >> mask) / 2 == col >> above)
                by (bit_vector)
                requires
                    above == mask + 1,
                    mask < 12,
            ;
            assert(col_bit == (col >> mask) % 2) by (bit_vector)
                requires
                    col_bit == (col >> mask) & 1,
            ;
            assert(xor_bit == ((row >> mask) % 2 + (col >> mask) % 2) % 2) by (bit_vector)
                requires
                    xor_bit == (a >> mask) & 1,
                    a == row ^ col,
            ;
            assert((result | (col_bit << bit)) | (xor_bit << next_bit) == result + (col_bit + 2
                * xor_bit) * place) by (bit_vector)
                requires
                    result < place,
                    place == 1u32 << bit,
                    next_bit == bit + 1,
                    bit <= 22,
                    col_bit <= 1,
                    xor_bit <= 1,
            ;
            assert(col_bit + 2 * xor_bit == base_rank(
                ((row >> mask) % 2) as nat,
                ((col >> mask) % 2) as nat,
            ));
        }
        result = result | (col_bit << bit);
        bit = bit + 1;
        result = result | (xor_bit << bit);
        bit = bit + 1;
    }
    result
}

} // verus!
