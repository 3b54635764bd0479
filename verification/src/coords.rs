use vstd::prelude::*;

verus! {

/// A board coordinate: a pair of signed integers with no implicit bound.
pub type Coord = (i64, i64);

/// Chunks are square tiles of 64 by 64 cells.
pub const CHUNK_SIZE: i64 = 64;

/// Cells per chunk.
pub const CHUNK_AREA: usize = 4096;

/// Coordinates this far from the ends of the signed range leave room for the
/// small slack the neighbour walks need.
pub const COORD_LIMIT: i64 = 0x2000_0000_0000_0000;

/// The coordinate is far enough from the ends of the signed range.
pub open spec fn spec_coord_in_range(p: Coord) -> bool {
    -COORD_LIMIT <= p.0 <= COORD_LIMIT && -COORD_LIMIT <= p.1 <= COORD_LIMIT
}

pub fn coord_in_range(p: Coord) -> (b: bool)
    ensures
        b == spec_coord_in_range(p),
{
    -COORD_LIMIT <= p.0 && p.0 <= COORD_LIMIT && -COORD_LIMIT <= p.1 && p.1 <= COORD_LIMIT
}

/// In range with two cells of slack on every side, so that a neighbour of a
/// neighbour is still representable.
pub open spec fn spec_coord_inner(p: Coord) -> bool {
    -COORD_LIMIT + 2 <= p.0 <= COORD_LIMIT - 2 && -COORD_LIMIT + 2 <= p.1 <= COORD_LIMIT - 2
}

pub fn coord_inner(p: Coord) -> (b: bool)
    ensures
        b == spec_coord_inner(p),
{
    -COORD_LIMIT + 2 <= p.0 && p.0 <= COORD_LIMIT - 2 && -COORD_LIMIT + 2 <= p.1 && p.1
        <= COORD_LIMIT - 2
}

/// The eight neighbours of `p`, clockwise from straight above.
pub open spec fn spec_adjacents(p: Coord) -> Seq<(int, int)> {
    seq![
        (p.0 as int, p.1 - 1),
        (p.0 + 1, p.1 - 1),
        (p.0 + 1, p.1 as int),
        (p.0 + 1, p.1 + 1),
        (p.0 as int, p.1 + 1),
        (p.0 - 1, p.1 + 1),
        (p.0 - 1, p.1 as int),
        (p.0 - 1, p.1 - 1),
    ]
}

/// `q` touches `p`: distinct cells at most one step apart on each axis.
pub open spec fn spec_touches(p: Coord, q: (int, int)) -> bool {
    &&& q != (p.0 as int, p.1 as int)
    &&& -1 <= q.0 - p.0 <= 1
    &&& -1 <= q.1 - p.1 <= 1
}

/// The same eight neighbours as machine coordinates; meaningful whenever
/// `p` stays inside `spec_coord_in_range`.
pub open spec fn spec_adj64(p: Coord) -> Seq<Coord> {
    seq![
        (p.0, (p.1 - 1) as i64),
        ((p.0 + 1) as i64, (p.1 - 1) as i64),
        ((p.0 + 1) as i64, p.1),
        ((p.0 + 1) as i64, (p.1 + 1) as i64),
        (p.0, (p.1 + 1) as i64),
        ((p.0 - 1) as i64, (p.1 + 1) as i64),
        ((p.0 - 1) as i64, p.1),
        ((p.0 - 1) as i64, (p.1 - 1) as i64),
    ]
}

/// The eight neighbours of a coordinate, in a fixed order.
pub fn adjacents(p: Coord) -> (r: Vec<Coord>)
    requires
        spec_coord_in_range(p),
    ensures
        r@.len() == 8,
        forall|i: int| 0 <= i < 8 ==> ((#[trigger] r@[i]).0 as int, r@[i].1 as int)
            == spec_adjacents(p)[i],
        forall|i: int| 0 <= i < 8 ==> spec_touches(p, ((#[trigger] r@[i]).0 as int, r@[i].1 as int)),
        r@ == spec_adj64(p),
{
    proof {
        let q = spec_adj64(p);
        assert(q.len() == 8);
    }
    let (x, y) = p;
    let mut v: Vec<Coord> = Vec::new();
    v.push((x, y - 1));
    v.push((x + 1, y - 1));
    v.push((x + 1, y));
    v.push((x + 1, y + 1));
    v.push((x, y + 1));
    v.push((x - 1, y + 1));
    v.push((x - 1, y));
    v.push((x - 1, y - 1));
    proof {
        assert(v@ =~= spec_adj64(p));
    }
    v
}

/// The chunk holding `p`, as Euclidean quotients of the two axes.
pub open spec fn spec_chunk_of(p: Coord) -> (int, int) {
    (p.0 as int / 64, p.1 as int / 64)
}

/// Where `p` lands inside its chunk, row-major.
pub open spec fn spec_offset_of(p: Coord) -> int {
    (p.1 as int % 64) * 64 + p.0 as int % 64
}

/// Splits a coordinate into its chunk coordinate and the cell's index inside
/// the chunk.
pub fn chunk_point(p: Coord) -> (r: (Coord, usize))
    ensures
        r.0.0 as int == spec_chunk_of(p).0,
        r.0.1 as int == spec_chunk_of(p).1,
        r.1 as int == spec_offset_of(p),
        r.1 < 4096,
{
    let (x, y) = p;
    let cx = match x.checked_div_euclid(CHUNK_SIZE) {
        Some(q) => q,
        None => 0,
    };
    let cy = match y.checked_div_euclid(CHUNK_SIZE) {
        Some(q) => q,
        None => 0,
    };
    let rx = match x.checked_rem_euclid(CHUNK_SIZE) {
        Some(q) => q,
        None => 0,
    };
    let ry = match y.checked_rem_euclid(CHUNK_SIZE) {
        Some(q) => q,
        None => 0,
    };
    proof {
        lemma_div64_fits(x as int);
        lemma_div64_fits(y as int);
    }
    ((cx, cy), (ry * 64 + rx) as usize)
}

/// Division by 64 never leaves the 64-bit range.
proof fn lemma_div64_fits(v: int)
    requires
        i64::MIN <= v <= i64::MAX,
    ensures
        i64::MIN <= v / 64 <= i64::MAX,
        0 <= v % 64 < 64,
{
    assert(i64::MIN <= v / 64 <= i64::MAX && 0 <= v % 64 < 64) by (nonlinear_arith)
        requires
            i64::MIN <= v <= i64::MAX,
    ;
}

/// The in-chunk offset always addresses one of the 4096 cells.
pub proof fn lemma_offset_in_range(p: Coord)
    ensures
        0 <= spec_offset_of(p) < 4096,
{
    lemma_div64_fits(p.0 as int);
    lemma_div64_fits(p.1 as int);
}

/// A coordinate is recovered from its chunk and offset, so `chunk_point` is
/// injective.
pub proof fn lemma_chunk_point_injective(p: Coord, q: Coord)
    requires
        spec_chunk_of(p) == spec_chunk_of(q),
        spec_offset_of(p) == spec_offset_of(q),
    ensures
        p == q,
{
    lemma_div64_fits(p.0 as int);
    lemma_div64_fits(p.1 as int);
    lemma_div64_fits(q.0 as int);
    lemma_div64_fits(q.1 as int);
    assert(p.0 as int % 64 == q.0 as int % 64 && p.1 as int % 64 == q.1 as int % 64) by {
        let op = spec_offset_of(p);
        let oq = spec_offset_of(q);
        assert(op == oq);
        assert(op % 64 == p.0 as int % 64 && op / 64 == p.1 as int % 64) by (nonlinear_arith)
            requires
                op == (p.1 as int % 64) * 64 + p.0 as int % 64,
                0 <= p.0 as int % 64 < 64,
                0 <= p.1 as int % 64 < 64,
        ;
        assert(oq % 64 == q.0 as int % 64 && oq / 64 == q.1 as int % 64) by (nonlinear_arith)
            requires
                oq == (q.1 as int % 64) * 64 + q.0 as int % 64,
                0 <= q.0 as int % 64 < 64,
                0 <= q.1 as int % 64 < 64,
        ;
    }
    assert(p.0 as int == (p.0 as int / 64) * 64 + p.0 as int % 64) by (nonlinear_arith);
    assert(p.1 as int == (p.1 as int / 64) * 64 + p.1 as int % 64) by (nonlinear_arith);
    assert(q.0 as int == (q.0 as int / 64) * 64 + q.0 as int % 64) by (nonlinear_arith);
    assert(q.1 as int == (q.1 as int / 64) * 64 + q.1 as int % 64) by (nonlinear_arith);
}

} // verus!
