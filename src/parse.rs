//! Reading a grid out of text.

use vstd::prelude::*;
use crate::entity::{SudokuMatrixValue, SQUARE_OUTER_LEN};
use crate::rulers::in_grid;

verus! {

broadcast use vstd::string::is_ascii_spec_bytes;

pub open spec fn is_digit(ch: char) -> bool {
    '0' <= ch <= '9'
}

/// The decimal digits of `s`, in order.
pub open spec fn digits_of(s: Seq<char>) -> Seq<char>
    decreases s.len(),
{
    if s.len() == 0 {
        seq![]
    } else {
        let d = digits_of(s.drop_last());
        if is_digit(s.last()) {
            d.push(s.last())
        } else {
            d
        }
    }
}

/// `g` holds the first 81 digits of `s` in row-major order ('0' for
/// unknown), and unknown where the digits run out.
pub open spec fn parsed_from(g: SudokuMatrixValue, s: Seq<char>) -> bool {
    forall|r: int, c: int|
        in_grid(r, c) ==> #[trigger] g.at(r, c) == if 9 * r + c < digits_of(s).len() {
            digits_of(s)[9 * r + c] as int - '0' as int
        } else {
            0
        }
}

/// Reads a grid from ASCII text: every digit fills the next cell in
/// row-major order, '0' standing for unknown; every other character is
/// skipped; digits after the 81st are ignored.
pub fn from_string(s: &String) -> (matrix: SudokuMatrixValue)
    requires
        vstd::utf8::is_ascii_chars(s@),
    ensures
        parsed_from(matrix, s@),
{
    let text = s.as_str();
    let bytes = text.as_bytes();
    proof {
        assert(vstd::string::is_ascii(text));
        assert(bytes@ =~= Seq::new(s@.len(), |i| s@[i] as u8));
    }
    let mut matrix = SudokuMatrixValue::new();
    proof {
        assert forall|r: int, c: int| in_grid(r, c) implies #[trigger] matrix.matrix[r][c] == 0 by {
            assert(matrix.at(r, c) == 0);
        }
        assert(s@.take(0).len() == 0);
    }
    let mut n: usize = 0;
    let mut i: usize = 0;
    while i < bytes.len()
        invariant
            i <= bytes@.len(),
            bytes@.len() == s@.len(),
            forall|j: int| 0 <= j < s@.len() ==> #[trigger] bytes@[j] == s@[j] as u8,
            vstd::utf8::is_ascii_chars(s@),
            n <= 81,
            n == if digits_of(s@.take(i as int)).len() < 81 {
                digits_of(s@.take(i as int)).len()
            } else {
                81
            },
            forall|r: int, c: int|
                in_grid(r, c) ==> #[trigger] matrix.matrix[r][c] == if 9 * r + c < n {
                    digits_of(s@.take(i as int))[9 * r + c] as int - '0' as int
                } else {
                    0
                },
        decreases bytes@.len() - i,
    {
        let ch = bytes[i];
        proof {
            let t = s@.take(i + 1);
            assert(t.drop_last() =~= s@.take(i as int));
            assert(t.last() == s@[i as int]);
            assert(s@[i as int] as u32 <= 0x7f);
            assert(is_digit(s@[i as int]) == (48 <= ch <= 57));
            assert(48 <= ch <= 57 ==> ch - 48 == s@[i as int] as int - '0' as int);
        }
        if 48 <= ch && ch <= 57 && n < SQUARE_OUTER_LEN * SQUARE_OUTER_LEN {
            matrix.matrix[n / SQUARE_OUTER_LEN][n % SQUARE_OUTER_LEN] = (ch - 48) as usize;
            n += 1;
        }
        i += 1;
    }
    proof {
        assert(s@.take(i as int) =~= s@);
        assert forall|r: int, c: int| in_grid(r, c) implies #[trigger] matrix.at(r, c) == if 9 * r + c < digits_of(s@).len() {
            digits_of(s@)[9 * r + c] as int - '0' as int
        } else {
            0
        } by {
            assert(matrix.at(r, c) == matrix.matrix[r][c]);
        }
    }
    matrix
}

} // verus!
