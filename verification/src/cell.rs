use vstd::prelude::*;

verus! {

/// A single board cell as the engine sees it.
#[derive(Clone, Copy, Debug, PartialEq, Eq, Structural)]
pub enum Cell {
    /// Never observed by the player; the payload is the player's flag mark.
    Hidden(bool),
    /// Observed, showing the number of mines among the 8 neighbours.
    Revealed(u8),
}

/// The bit-packed single-byte form a cell takes inside a chunk:
/// bit 0 = revealed?; if hidden, bit 1 = flagged; if revealed, the upper
/// nibble holds the mine count.
#[derive(Clone, Copy, Debug, PartialEq, Eq, Structural)]
pub struct CellData {
    pub data: u8,
}

/// A revealed count never exceeds the eight neighbours.
pub open spec fn cell_wf(c: Cell) -> bool {
    match c {
        Cell::Hidden(_) => true,
        Cell::Revealed(n) => n <= 8,
    }
}

/// The byte a cell is stored as.
pub open spec fn spec_to_data(c: Cell) -> u8 {
    match c {
        Cell::Hidden(flag) => if flag { 2u8 } else { 0u8 },
        Cell::Revealed(n) => (n * 16 + 1) as u8,
    }
}

/// The cell a byte decodes to.
pub open spec fn spec_to_cell(b: u8) -> Cell {
    if b % 2 == 1 {
        Cell::Revealed(b / 16)
    } else {
        Cell::Hidden((b / 2) % 2 == 1)
    }
}

/// A byte is canonical when re-encoding its cell gives the byte back.
pub open spec fn canonical_byte(b: u8) -> bool {
    spec_to_data(spec_to_cell(b)) == b && cell_wf(spec_to_cell(b))
}

/// Encoding a well-formed cell always yields a canonical byte that decodes
/// back to the same cell.
pub proof fn lemma_cell_roundtrip(c: Cell)
    requires
        cell_wf(c),
    ensures
        spec_to_cell(spec_to_data(c)) == c,
        canonical_byte(spec_to_data(c)),
{
    match c {
        Cell::Hidden(flag) => {
        },
        Cell::Revealed(n) => {
            assert(n <= 8);
            assert((n * 16 + 1) as u8 % 2 == 1);
            assert((n * 16 + 1) as u8 / 16 == n);
        },
    }
}

/// Runtime check for `canonical_byte`.
pub fn is_canonical(b: u8) -> (r: bool)
    ensures
        r == canonical_byte(b),
{
    proof {
        assert((b & 1) == b % 2) by (bit_vector);
        assert((b >> 4) == b / 16) by (bit_vector);
        assert(((b >> 1) & 1) == (b / 2) % 2) by (bit_vector);
    }
    if b & 1 == 1 {
        let n = b >> 4;
        let ok = n <= 8 && b == (n << 4) | 1;
        proof {
            let nn = b >> 4;
            assert(nn <= 8 ==> ((nn << 4) | 1) == (nn * 16 + 1) as u8) by (bit_vector);
        }
        ok
    } else {
        b == 0 || b == 2
    }
}

impl Cell {
    /// The default state of every cell of the unbounded board.
    pub fn new() -> (c: Cell)
        ensures
            c == Cell::Hidden(false),
    {
        Cell::Hidden(false)
    }

    pub fn is_revealed(self) -> (b: bool)
        ensures
            b == self is Revealed,
    {
        match self {
            Cell::Revealed(_) => true,
            Cell::Hidden(_) => false,
        }
    }

    /// Packs the cell into its storage byte.
    pub fn to_data(self) -> (d: CellData)
        requires
            cell_wf(self),
        ensures
            d.data == spec_to_data(self),
    {
        CellData {
            data: match self {
                Cell::Hidden(p) => {
                    let b: u8 = if p { 1 } else { 0 };
                    let r: u8 = b << 1;
                    proof {
                        assert(((1u8) << 1) == 2u8) by (bit_vector);
                        assert(((0u8) << 1) == 0u8) by (bit_vector);
                    }
                    r
                },
                Cell::Revealed(n) => {
                    let r: u8 = (n << 4) | 1;
                    proof {
                        let nn = n;
                        assert(nn <= 8 ==> ((nn << 4) | 1) == (nn * 16 + 1) as u8) by (bit_vector);
                    }
                    r
                },
            },
        }
    }
}

impl CellData {
    /// Unpacks the storage byte.
    pub fn to_cell(self) -> (c: Cell)
        ensures
            c == spec_to_cell(self.data),
    {
        let b = self.data;
        proof {
            assert((b & 1) == b % 2) by (bit_vector);
            assert((b >> 4) == b / 16) by (bit_vector);
            assert(((b >> 1) & 1) == (b / 2) % 2) by (bit_vector);
        }
        if b & 1 == 1 {
            Cell::Revealed(b >> 4)
        } else {
            Cell::Hidden(b >> 1 & 1 == 1)
        }
    }
}

} // verus!
