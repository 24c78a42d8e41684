use vstd::prelude::*;
use vstd::arithmetic::div_mod::{
    lemma_div_denominator, lemma_fundamental_div_mod, lemma_fundamental_div_mod_converse,
};

verus! {

/// Cells of a `gx * gy * gz` box are numbered with x fastest, then y, then z.
pub open spec fn linear(gx: int, gy: int, x: int, y: int, z: int) -> int {
    x + y * gx + z * (gx * gy)
}

/// Offsets are ordered lexicographically by (dz, dy, dx); an offset is forward
/// when it comes after (0, 0, 0) in that order.
pub open spec fn lex_forward(dx: int, dy: int, dz: int) -> bool {
    dz > 0 || (dz == 0 && (dy > 0 || (dy == 0 && dx > 0)))
}

pub open spec fn within_one(d: int) -> bool {
    -1 <= d <= 1
}

pub open spec fn coord_x(gx: int, gy: int, c: int) -> int {
    c % gx
}

pub open spec fn coord_y(gx: int, gy: int, c: int) -> int {
    (c / gx) % gy
}

pub open spec fn coord_z(gx: int, gy: int, c: int) -> int {
    c / (gx * gy)
}

pub open spec fn in_box(gx: int, gy: int, gz: int, c: int) -> bool {
    0 <= c < gx * gy * gz
}

/// `c1` and `c2` are cells of the box whose coordinates differ by at most one on each axis
/// (a cell neighbours itself).
pub open spec fn neighbours(gx: int, gy: int, gz: int, c1: int, c2: int) -> bool {
    &&& in_box(gx, gy, gz, c1)
    &&& in_box(gx, gy, gz, c2)
    &&& within_one(coord_x(gx, gy, c2) - coord_x(gx, gy, c1))
    &&& within_one(coord_y(gx, gy, c2) - coord_y(gx, gy, c1))
    &&& within_one(coord_z(gx, gy, c2) - coord_z(gx, gy, c1))
}

/// `c2` is a neighbour of `c1` reached by a forward offset.
pub open spec fn forward(gx: int, gy: int, gz: int, c1: int, c2: int) -> bool {
    &&& neighbours(gx, gy, gz, c1, c2)
    &&& lex_forward(
        coord_x(gx, gy, c2) - coord_x(gx, gy, c1),
        coord_y(gx, gy, c2) - coord_y(gx, gy, c1),
        coord_z(gx, gy, c2) - coord_z(gx, gy, c1),
    )
}

/// The forward-neighbour segment of cell `c` in a (starts, list) pair: strictly
/// increasing, made of forward neighbours of `c` only, and holding all of them.
pub open spec fn segment_ok(
    gx: int,
    gy: int,
    gz: int,
    starts: Seq<usize>,
    list: Seq<usize>,
    c: int,
) -> bool {
    let lo = starts[c] as int;
    let hi = starts[c + 1] as int;
    &&& 0 <= c
    &&& c + 1 < starts.len()
    &&& lo <= hi <= list.len()
    &&& forall|i: int, j: int| lo <= i < j < hi ==> list[i] < list[j]
    &&& forall|i: int| lo <= i < hi ==> forward(gx, gy, gz, c, #[trigger] list[i] as int)
    &&& forall|c2: int|
        #[trigger] forward(gx, gy, gz, c, c2) ==> exists|i: int|
            lo <= i < hi && #[trigger] list[i] == c2
}

/// Coordinates in range map to a cell in range, and the cell decodes back to them.
pub proof fn lemma_decode(gx: int, gy: int, gz: int, x: int, y: int, z: int)
    requires
        gx > 0,
        gy > 0,
        0 <= x < gx,
        0 <= y < gy,
        0 <= z < gz,
    ensures
        in_box(gx, gy, gz, linear(gx, gy, x, y, z)),
        coord_x(gx, gy, linear(gx, gy, x, y, z)) == x,
        coord_y(gx, gy, linear(gx, gy, x, y, z)) == y,
        coord_z(gx, gy, linear(gx, gy, x, y, z)) == z,
{
    let c = linear(gx, gy, x, y, z);
    let q = y + z * gy;
    assert(c == q * gx + x) by (nonlinear_arith)
        requires
            c == x + y * gx + z * (gx * gy),
            q == y + z * gy,
    ;
    lemma_fundamental_div_mod_converse(c, gx, q, x);
    lemma_fundamental_div_mod_converse(q, gy, z, y);
    assert(c >= 0) by (nonlinear_arith)
        requires
            c == q * gx + x,
            q == y + z * gy,
            gx > 0,
            gy > 0,
            0 <= x,
            0 <= y,
            0 <= z,
    ;
    lemma_div_denominator(c, gx, gy);
    assert(c < gx * gy * gz) by (nonlinear_arith)
        requires
            c == x + y * gx + z * (gx * gy),
            0 <= x < gx,
            0 <= y < gy,
            0 <= z < gz,
    {
        assert(x + y * gx <= gx * gy - 1) by (nonlinear_arith)
            requires
                0 <= x < gx,
                0 <= y < gy,
        ;
        assert(z * (gx * gy) <= (gz - 1) * (gx * gy)) by (nonlinear_arith)
            requires
                0 <= z < gz,
                gx > 0,
                gy > 0,
        ;
    }
}

/// Every cell in range is the linear index of its own coordinates, which are in range.
pub proof fn lemma_encode(gx: int, gy: int, gz: int, c: int)
    requires
        gx > 0,
        gy > 0,
        gz > 0,
        in_box(gx, gy, gz, c),
    ensures
        0 <= coord_x(gx, gy, c) < gx,
        0 <= coord_y(gx, gy, c) < gy,
        0 <= coord_z(gx, gy, c) < gz,
        c == linear(gx, gy, coord_x(gx, gy, c), coord_y(gx, gy, c), coord_z(gx, gy, c)),
{
    let q = c / gx;
    let x = c % gx;
    lemma_fundamental_div_mod(c, gx);
    lemma_fundamental_div_mod(q, gy);
    lemma_div_denominator(c, gx, gy);
    let y = q % gy;
    let z = q / gy;
    assert(q >= 0) by (nonlinear_arith)
        requires
            c == gx * q + x,
            0 <= x < gx,
            c >= 0,
    ;
    assert(z >= 0) by (nonlinear_arith)
        requires
            q == gy * z + y,
            0 <= y < gy,
            q >= 0,
    ;
    assert(c == x + y * gx + z * (gx * gy)) by (nonlinear_arith)
        requires
            c == gx * q + x,
            q == gy * z + y,
    ;
    assert(z < gz) by (nonlinear_arith)
        requires
            c == x + y * gx + z * (gx * gy),
            0 <= x,
            0 <= y,
            c < gx * gy * gz,
            gx > 0,
            gy > 0,
    ;
}

/// Cells ordered lexicographically by (z, y, x) are ordered by linear index.
pub proof fn lemma_linear_lex(
    gx: int,
    gy: int,
    x1: int,
    y1: int,
    z1: int,
    x2: int,
    y2: int,
    z2: int,
)
    requires
        gx > 0,
        gy > 0,
        0 <= x1 < gx,
        0 <= x2 < gx,
        0 <= y1 < gy,
        0 <= y2 < gy,
        z1 < z2 || (z1 == z2 && (y1 < y2 || (y1 == y2 && x1 < x2))),
    ensures
        linear(gx, gy, x1, y1, z1) < linear(gx, gy, x2, y2, z2),
{
    if z1 < z2 {
        assert(x1 + y1 * gx < gx * gy) by (nonlinear_arith)
            requires
                0 <= x1 < gx,
                0 <= y1 < gy,
        ;
        assert(z1 * (gx * gy) + gx * gy <= z2 * (gx * gy)) by (nonlinear_arith)
            requires
                z1 < z2,
                gx > 0,
                gy > 0,
        ;
        assert(0 <= x2 + y2 * gx) by (nonlinear_arith)
            requires
                0 <= x2,
                0 <= y2,
                gx > 0,
        ;
    } else if y1 < y2 {
        assert(y1 * gx + gx <= y2 * gx) by (nonlinear_arith)
            requires
                y1 < y2,
                gx > 0,
        ;
    }
}

/// A forward neighbour is never the cell itself, and of two distinct neighbouring cells
/// exactly one is a forward neighbour of the other.
pub proof fn lemma_forward_exactly_one(gx: int, gy: int, gz: int, c1: int, c2: int)
    requires
        gx > 0,
        gy > 0,
        gz > 0,
        neighbours(gx, gy, gz, c1, c2),
    ensures
        !forward(gx, gy, gz, c1, c1),
        c1 != c2 ==> (forward(gx, gy, gz, c1, c2) != forward(gx, gy, gz, c2, c1)),
        neighbours(gx, gy, gz, c2, c1),
{
    lemma_encode(gx, gy, gz, c1);
    lemma_encode(gx, gy, gz, c2);
}

/// Each side, and each face, of a non-empty box is at most its number of cells.
pub proof fn lemma_dims_bounded(gx: int, gy: int, gz: int)
    requires
        gx > 0,
        gy > 0,
        gz > 0,
    ensures
        gx <= gx * gy * gz,
        gy <= gx * gy * gz,
        gz <= gx * gy * gz,
        gx * gy <= gx * gy * gz,
        gx <= gx * gy,
        gy <= gx * gy,
{
    assert(gx <= gx * gy) by (nonlinear_arith)
        requires
            gx > 0,
            gy > 0,
    ;
    assert(gy <= gx * gy) by (nonlinear_arith)
        requires
            gx > 0,
            gy > 0,
    ;
    assert(gx * gy <= gx * gy * gz) by (nonlinear_arith)
        requires
            gx > 0,
            gy > 0,
            gz > 0,
    ;
    assert(gz <= gx * gy * gz) by (nonlinear_arith)
        requires
            gx > 0,
            gy > 0,
            gz > 0,
    ;
}

} // verus!
