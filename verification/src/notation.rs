//! Square-name codecs: between (column, row) pairs, single-square masks and
//! the two-character square name, and from a mask to the concatenated names
//! of its squares.

use vstd::prelude::*;

use crate::bits::{bit64, lemma_bit_single, lemma_bit_zero};
use crate::board::sq;
use crate::moves::{file_char, rank_char};

verus! {

/// The two-character name of the square on column `c`, row `r`: the file
/// letter and the rank digit, row 0 named `1`.
pub open spec fn square_name(c: int, r: int) -> Seq<char> {
    seq![file_char(c), rank_char(r)]
}

/// The single-square mask of the square on column `x`, row `y`.
pub fn coordinates_to_bitboard(x: u32, y: u32) -> (r: u64)
    requires
        x < 8,
        y < 8,
    ensures
        r == 1u64 << ((x + y * 8) as u64),
        forall|i: int| #[trigger] bit64(r, i) <==> i == sq(x as int, y as int),
{
    let k: u64 = (x + y * 8) as u64;
    let r = 1u64 << k;
    proof {
        assert forall|i: int| #[trigger] bit64(r, i) <==> i == sq(x as int, y as int) by {
            lemma_bit_single(k, i);
        }
    }
    r
}

/// The column and row of the lowest set square of `bitboard`; with a
/// single-square mask, that square's coordinates.
pub fn bitboard_to_coordinates(bitboard: u64) -> (r: (u32, u32))
    ensures
        forall|k: u64| k < 64 && bitboard == 1u64 << k ==> r.0 == k % 8 && r.1 == k / 8,
{
    let column = bitboard.trailing_zeros() % 8;
    let row = bitboard.trailing_zeros() / 8;
    proof {
        assert forall|k: u64| k < 64 && bitboard == 1u64 << k implies column == k % 8 && row == k
            / 8 by {
            vstd::std_specs::bits::axiom_u64_trailing_zeros(bitboard);
            let t = vstd::std_specs::bits::u64_trailing_zeros(bitboard) as int;
            lemma_bit_single(k, k as int);
            assert(bit64(bitboard, k as int));
            lemma_bit_zero(k as int);
            assert(bitboard != 0);
            assert(t < 64);
            assert(bit64(bitboard, t));
            lemma_bit_single(k, t);
        }
    }
    (column, row)
}

/// Reads a two-character square name such as `e3`: a file letter `a`..`h`
/// and a rank digit `1`..`8`. Any other length fails.
pub fn translate_single_fen(pos: &str) -> (r: Result<(u32, u32), String>)
    ensures
        pos@.len() != 2 ==> (r matches Err(e) && e@ == "Invalid length"@),
        pos@.len() == 2 && !(97 <= pos@[0] as u32 <= 104) ==> (r matches Err(e) && e@
            == "Invalid column"@),
        pos@.len() == 2 && 97 <= pos@[0] as u32 <= 104 && !(49 <= pos@[1] as u32 <= 56) ==> (
        r matches Err(e) && e@ == "Invalid row"@),
        pos@.len() == 2 && 97 <= pos@[0] as u32 <= 104 && 49 <= pos@[1] as u32 <= 56 ==> r
            == Ok::<(u32, u32), String>(
            ((pos@[0] as u32 - 97) as u32, (pos@[1] as u32 - 49) as u32),
        ),
{
    let n = pos.unicode_len();
    if n != 2 {
        return Err("Invalid length".to_owned());
    }
    let c0 = pos.get_char(0) as u32;
    if c0 < 97 || c0 > 104 {
        return Err("Invalid column".to_owned());
    }
    let c1 = pos.get_char(1) as u32;
    if c1 < 49 || c1 > 56 {
        return Err("Invalid row".to_owned());
    }
    Ok((c0 - 97, c1 - 49))
}

/// The square index a valid name pair at position `2 * j` denotes.
pub open spec fn pair_sq(s: Seq<char>, j: int) -> int {
    sq(s[2 * j] as u32 - 97, s[2 * j + 1] as u32 - 49)
}

/// Every two characters of `s` form a valid square name.
pub open spec fn all_pairs_ok(s: Seq<char>) -> bool {
    &&& s.len() % 2 == 0
    &&& forall|j: int|
        0 <= j < s.len() / 2 ==> 97 <= #[trigger] (s[2 * j] as u32) <= 104 && 49 <= s[2 * j
            + 1] as u32 <= 56
}

/// Reads a string of concatenated square names into the mask of the named
/// squares.
pub fn translateFEN(FEN: &str) -> (r: u64)
    requires
        all_pairs_ok(FEN@),
    ensures
        forall|i: int|
            #[trigger] bit64(r, i) <==> exists|j: int| 0 <= j < FEN@.len() / 2 && i == pair_sq(
                FEN@,
                j,
            ),
{
    let n = FEN.unicode_len();
    let mut bitboard: u64 = 0;
    let mut idx: usize = 0;
    proof {
        assert forall|i: int| !#[trigger] bit64(0u64, i) by {
            lemma_bit_zero(i);
        }
    }
    while idx + 1 < n
        invariant
            all_pairs_ok(FEN@),
            n == FEN@.len(),
            idx % 2 == 0,
            idx <= n,
            forall|i: int|
                #[trigger] bit64(bitboard, i) <==> exists|j: int|
                    0 <= j < idx / 2 && i == #[trigger] pair_sq(FEN@, j),
        decreases n - idx,
    {
        let ghost b0 = bitboard;
        let ghost j0 = idx as int / 2;
        let c0 = FEN.get_char(idx) as u32;
        let c1 = FEN.get_char(idx + 1) as u32;
        proof {
            assert(97 <= FEN@[2 * j0] as u32 <= 104 && 49 <= FEN@[2 * j0 + 1] as u32 <= 56);
        }
        let k: u64 = ((c0 - 97) + (c1 - 49) * 8) as u64;
        proof {
            assert(k == pair_sq(FEN@, j0));
        }
        bitboard = bitboard | (1u64 << k);
        idx = idx + 2;
        proof {
            assert forall|i: int| #[trigger] bit64(bitboard, i) <==> exists|j: int|
                0 <= j < idx / 2 && i == #[trigger] pair_sq(FEN@, j) by {
                crate::bits::lemma_bit_or(b0, 1u64 << k, i);
                lemma_bit_single(k, i);
                if bit64(bitboard, i) {
                    if bit64(b0, i) {
                        let j = choose|j: int| 0 <= j < j0 && i == #[trigger] pair_sq(FEN@, j);
                        assert(0 <= j < idx / 2 && i == pair_sq(FEN@, j));
                    } else {
                        assert(i == pair_sq(FEN@, j0));
                    }
                }
                if exists|j: int| 0 <= j < idx / 2 && i == #[trigger] pair_sq(FEN@, j) {
                    let j = choose|j: int| 0 <= j < idx / 2 && i == #[trigger] pair_sq(FEN@, j);
                    if j < j0 {
                        assert(bit64(b0, i));
                    } else {
                        assert(j == j0);
                        assert(i == k as int);
                    }
                }
            }
        }
    }
    bitboard
}

/// Writes the name of the square on column `column`, row `row`.
pub fn translate_coordinates(column: u32, row: u32) -> (r: String)
    requires
        column < 8,
        row < 8,
    ensures
        r@ == square_name(column as int, row as int),
{
    let mut out = String::new();
    crate::moves::append_file_char(&mut out, column);
    crate::moves::append_rank_char(&mut out, row);
    proof {
        assert(out@ =~= square_name(column as int, row as int));
    }
    out
}

/// The concatenated names of the set squares of `m` from index `k` up, in
/// increasing square order.
pub open spec fn names_from(m: u64, k: int) -> Seq<char>
    decreases 64 - k when k <= 64
{
    if k >= 64 {
        Seq::empty()
    } else if bit64(m, k) {
        square_name(k % 8, k / 8) + names_from(m, k + 1)
    } else {
        names_from(m, k + 1)
    }
}

/// Skipping clear squares does not change the written names.
proof fn lemma_names_skip(m: u64, a: int, b: int)
    requires
        0 <= a <= b <= 64,
        forall|i: int| a <= i < b ==> !#[trigger] bit64(m, i),
    ensures
        names_from(m, a) == names_from(m, b),
    decreases b - a,
{
    if a < b {
        lemma_names_skip(m, a + 1, b);
    }
}

/// Writes the names of every set square of `bitboard`, lowest first.
pub fn translate_bitboard(bitboard: u64) -> (r: String)
    ensures
        r@ == names_from(bitboard, 0),
{
    let ghost orig = bitboard;
    let mut out = String::new();
    let mut bitboard = bitboard;
    let ghost mut n: int = 0;
    while bitboard != 0
        invariant
            0 <= n <= 64,
            forall|i: int| i < n ==> !#[trigger] bit64(bitboard, i),
            forall|i: int| n <= i < 64 ==> #[trigger] bit64(bitboard, i) == bit64(orig, i),
            out@ + names_from(orig, n) == names_from(orig, 0),
        decreases bitboard,
    {
        let ghost bb0 = bitboard;
        let ghost out0 = out@;
        let tz = bitboard.trailing_zeros();
        let ghost k = tz as int;
        proof {
            vstd::std_specs::bits::axiom_u64_trailing_zeros(bitboard);
            assert(k < 64);
            assert(bit64(bitboard, k));
            assert(k >= n);
            assert forall|i: int| n <= i < k implies !#[trigger] bit64(orig, i) by {
                let u = bit64(bitboard, i);
                assert((bitboard >> (i as u64)) & 1u64 == 0u64);
            }
            lemma_names_skip(orig, n, k);
        }
        let column = tz % 8;
        let row = tz / 8;
        let name = translate_coordinates(column, row);
        out.append(name.as_str());
        let single: u64 = 1u64 << tz;
        proof {
            assert(bb0 & !single < bb0) by (bit_vector)
                requires
                    (bb0 >> (tz as u64)) & 1u64 == 1u64,
                    tz < 64,
                    single == 1u64 << tz,
            ;
        }
        bitboard = bitboard & !single;
        proof {
            n = k + 1;
            assert forall|i: int| i < n implies !#[trigger] bit64(bitboard, i) by {
                crate::bits::lemma_bit_and(bb0, !single, i);
                crate::bits::lemma_bit_not(single, i);
                lemma_bit_single(tz as u64, i);
                lemma_bit_zero(i);
            }
            assert forall|i: int| n <= i < 64 implies #[trigger] bit64(bitboard, i) == bit64(
                orig,
                i,
            ) by {
                crate::bits::lemma_bit_and(bb0, !single, i);
                crate::bits::lemma_bit_not(single, i);
                lemma_bit_single(tz as u64, i);
            }
            assert(bit64(orig, k));
            assert(names_from(orig, k) == square_name(k % 8, k / 8) + names_from(orig, k + 1));
            assert(out@ =~= out0 + square_name(k % 8, k / 8));
            assert(out@ + names_from(orig, n) =~= out0 + names_from(orig, k));
            assert(out@ + names_from(orig, n) == names_from(orig, 0));
        }
    }
    proof {
        assert forall|i: int| n <= i < 64 implies !#[trigger] bit64(orig, i) by {
            lemma_bit_zero(i);
        }
        lemma_names_skip(orig, n, 64);
        assert(out@ =~= names_from(orig, 0));
    }
    out
}

} // verus!
