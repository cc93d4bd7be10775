//! The compact storage: two cells in each byte.

use vstd::prelude::*;
use crate::board::{empty_board, Cells};
use crate::digit::Digit;
use crate::grid::Grid;

verus! {

/// The half of `byte` that stands for cell `idx`: the low four bits for an even
/// place, the high four bits for an odd one.
pub open spec fn half_byte(byte: u8, idx: int) -> u8 {
    if idx % 2 == 0 {
        byte & 0x0f
    } else {
        byte >> 4
    }
}

/// Shifting by 0 or by 4 and masking reads the low or the high half of a byte.
proof fn lemma_read_half(byte: u8, shift: usize)
    by (bit_vector)
    requires
        shift == 0 || shift == 4,
    ensures
        shift == 0 ==> (byte >> shift) & 0x0f == byte & 0x0f,
        shift == 4 ==> (byte >> shift) & 0x0f == byte >> 4,
        (byte >> shift) & 0x0f <= 15,
{
}

/// Writing a number below 16 into one half of a byte stores it there and keeps the
/// other half.
proof fn lemma_write_half(byte: u8, number: u8, shift: usize)
    by (bit_vector)
    requires
        shift == 0 || shift == 4,
        number <= 15,
    ensures
        ({
            let written = byte ^ ((byte ^ (number << shift)) & (0x0fu8 << shift));
            &&& shift == 0 ==> written & 0x0f == number && written >> 4 == byte >> 4
            &&& shift == 4 ==> written >> 4 == number && written & 0x0f == byte & 0x0f
        }),
{
}

/// Two bytes with the same low half and the same high half are the same byte.
proof fn lemma_halves_make_the_byte(a: u8, b: u8)
    by (bit_vector)
    requires
        a & 0x0f == b & 0x0f,
        a >> 4 == b >> 4,
    ensures
        a == b,
{
}

/// A grid that keeps its 81 cells in 41 bytes, four bits for each cell.
///
/// Two grids are equal when they hold the same cells.
#[derive(Debug, Copy, Clone, Eq, Hash)]
pub struct PackedGrid([u8; 41]);

impl PackedGrid {
    /// Every half byte holds a number up to 9, and the half byte behind the last cell
    /// holds 0: the cells fix the bytes.
    #[verifier::type_invariant]
    closed spec fn is_canonical(self) -> bool {
        &&& forall|i: int|
            0 <= i < 41 ==> (#[trigger] self.0@[i]) & 0x0f <= 9 && self.0@[i] >> 4 <= 9
        &&& self.0@[40] >> 4 == 0
    }
}

impl PartialEq for PackedGrid {
    fn eq(&self, other: &PackedGrid) -> (equal: bool) {
        let mut i: usize = 0;
        while i < 41
            invariant
                i <= 41,
                forall|j: int| 0 <= j < i ==> (#[trigger] self.0@[j]) == other.0@[j],
            decreases 41 - i,
        {
            if self.0[i] != other.0[i] {
                proof {
                    use_type_invariant(self);
                    use_type_invariant(other);
                    lemma_different_bytes_hold_different_cells(*self, *other, i as int);
                }
                return false;
            }
            i += 1;
        }
        assert(self@ =~= other@);
        true
    }
}

impl vstd::std_specs::cmp::PartialEqSpecImpl for PackedGrid {
    open spec fn obeys_eq_spec() -> bool {
        true
    }

    open spec fn eq_spec(&self, other: &PackedGrid) -> bool {
        self@ == other@
    }
}

/// Two grids that differ in a byte differ in a cell.
proof fn lemma_different_bytes_hold_different_cells(a: PackedGrid, b: PackedGrid, i: int)
    requires
        a.is_canonical(),
        b.is_canonical(),
        0 <= i < 41,
        a.0@[i] != b.0@[i],
    ensures
        a@ != b@,
{
    let x = a.0@[i];
    let y = b.0@[i];
    if x & 0x0f != y & 0x0f {
        assert(a@[2 * i] == Digit::spec_from_u8(half_byte(x, 2 * i)));
        assert(b@[2 * i] == Digit::spec_from_u8(half_byte(y, 2 * i)));
    } else {
        if x >> 4 == y >> 4 {
            lemma_halves_make_the_byte(x, y);
        }
        assert(i < 40);
        assert(a@[2 * i + 1] == Digit::spec_from_u8(half_byte(x, 2 * i + 1)));
        assert(b@[2 * i + 1] == Digit::spec_from_u8(half_byte(y, 2 * i + 1)));
    }
}

impl Grid for PackedGrid {
    closed spec fn view(&self) -> Cells {
        Seq::new(81, |i: int| Digit::spec_from_u8(half_byte(self.0@[i / 2], i)))
    }

    proof fn lemma_view_len(&self) {
    }

    fn new_zeroed() -> (grid: PackedGrid) {
        let bytes: [u8; 41] = [
            0, 0, 0, 0, 0, 0, 0, 0, 0, 0, 0, 0, 0, 0, 0, 0, 0, 0, 0, 0, 0,
            0, 0, 0, 0, 0, 0, 0, 0, 0, 0, 0, 0, 0, 0, 0, 0, 0, 0, 0, 0,
        ];
        assert(0u8 & 0x0f == 0 && 0u8 >> 4 == 0) by (bit_vector);
        let grid = PackedGrid(bytes);
        assert(grid@ =~= empty_board());
        grid
    }

    #[inline]
    fn get(&self, idx: usize) -> (cell: Option<Digit>) {
        let shift = (idx % 2) * 4;
        proof {
            lemma_read_half(self.0@[idx as int / 2], shift);
        }
        Digit::from_u8((self.0[idx / 2] >> shift) & 0b1111)
    }

    #[inline]
    fn set(&mut self, idx: usize, val: Option<Digit>) {
        let shift = (idx % 2) * 4;
        let mask: u8 = 0b1111 << shift;
        let number: u8 = match val {
            Some(d) => d.value(),
            None => 0,
        };
        let byte = self.0[idx / 2];
        proof {
            use_type_invariant(&*self);
            lemma_write_half(byte, number, shift);
        }
        self.0[idx / 2] = byte ^ ((byte ^ (number << shift)) & mask);
        assert(self@ =~= old(self)@.update(idx as int, val)) by {
            assert(Digit::spec_from_u8(number) == val);
        }
    }
}

} // verus!
