use vstd::prelude::*;
use crate::counting::{
    count_eq, count_lt, sorted_slot, lemma_count_bounds, lemma_count_lt_step, lemma_count_lt_mono,
    lemma_count_lt_zero, lemma_count_lt_all, lemma_count_take_step, lemma_count_take_le,
    lemma_range_of,
};
use crate::cells::{
    forward, lemma_decode, lemma_encode, lemma_linear_lex, lex_forward, linear, coord_x, coord_y,
    coord_z, lemma_dims_bounded, neighbours, segment_ok, lemma_forward_exactly_one,
};
use vstd::seq_lib::lemma_seq_contains_after_push;

verus! {

/// Offset `k` in `0..27` stands for (dx, dy, dz) = (ox - 1, oy - 1, oz - 1).
pub open spec fn off_x(k: int) -> int {
    k % 3
}

pub open spec fn off_y(k: int) -> int {
    (k / 3) % 3
}

pub open spec fn off_z(k: int) -> int {
    k / 9
}

/// Offset `k` from cell (cx, cy, cz) is forward and stays inside the box.
pub open spec fn offset_valid(gx: int, gy: int, gz: int, cx: int, cy: int, cz: int, k: int) -> bool {
    &&& lex_forward(off_x(k) - 1, off_y(k) - 1, off_z(k) - 1)
    &&& 0 <= cx + off_x(k) - 1 < gx
    &&& 0 <= cy + off_y(k) - 1 < gy
    &&& 0 <= cz + off_z(k) - 1 < gz
}

/// The cell reached from (cx, cy, cz) by offset `k`.
pub open spec fn offset_target(gx: int, gy: int, cx: int, cy: int, cz: int, k: int) -> int {
    linear(gx, gy, cx + off_x(k) - 1, cy + off_y(k) - 1, cz + off_z(k) - 1)
}

proof fn lemma_offset_order(k1: int, k2: int)
    requires
        0 <= k1 < k2 < 27,
    ensures
        off_z(k1) < off_z(k2) || (off_z(k1) == off_z(k2) && (off_y(k1) < off_y(k2) || (
        off_y(k1) == off_y(k2) && off_x(k1) < off_x(k2)))),
{
}

/// Appends the forward neighbours of cell (cx, cy, cz) to `list`, in increasing order.
fn push_forward(
    gx: usize,
    gy: usize,
    gz: usize,
    cx: usize,
    cy: usize,
    cz: usize,
    list: &mut Vec<usize>,
)
    requires
        gx > 0,
        gy > 0,
        gz > 0,
        gx * gy * gz <= i32::MAX,
        cx < gx,
        cy < gy,
        cz < gz,
    ensures
        final(list)@.len() >= old(list)@.len(),
        final(list)@.subrange(0, old(list)@.len() as int) == old(list)@,
        forall|i: int, j: int|
            old(list)@.len() <= i < j < final(list)@.len() ==> final(list)@[i] < final(list)@[j],
        forall|i: int|
            old(list)@.len() <= i < final(list)@.len() ==> forward(
                gx as int,
                gy as int,
                gz as int,
                linear(gx as int, gy as int, cx as int, cy as int, cz as int),
                #[trigger] final(list)@[i] as int,
            ),
        forall|c2: int|
            #[trigger] forward(
                gx as int,
                gy as int,
                gz as int,
                linear(gx as int, gy as int, cx as int, cy as int, cz as int),
                c2,
            ) ==> exists|i: int|
                old(list)@.len() <= i < final(list)@.len() && #[trigger] final(list)@[i] == c2,
{
    let ghost start = list@.len();
    let ghost c = linear(gx as int, gy as int, cx as int, cy as int, cz as int);
    proof {
        lemma_dims_bounded(gx as int, gy as int, gz as int);
    }
    let gxy = gx * gy;
    let mut k: usize = 0;
    while k < 27
        invariant
            gx > 0,
            gy > 0,
            gz > 0,
            gxy == gx * gy,
            gx * gy * gz <= i32::MAX,
            gx <= i32::MAX,
            gy <= i32::MAX,
            gz <= i32::MAX,
            cx < gx,
            cy < gy,
            cz < gz,
            c == linear(gx as int, gy as int, cx as int, cy as int, cz as int),
            k <= 27,
            start <= list@.len(),
            list@.subrange(0, start as int) == old(list)@.subrange(0, start as int),
            start == old(list)@.len(),
            forall|i: int, j: int| start <= i < j < list@.len() ==> list@[i] < list@[j],
            forall|i: int|
                start <= i < list@.len() ==> forward(
                    gx as int,
                    gy as int,
                    gz as int,
                    c,
                    #[trigger] list@[i] as int,
                ),
            forall|i: int, k2: int|
                start <= i < list@.len() && k <= k2 < 27 && offset_valid(
                    gx as int,
                    gy as int,
                    gz as int,
                    cx as int,
                    cy as int,
                    cz as int,
                    k2,
                ) ==> list@[i] < offset_target(gx as int, gy as int, cx as int, cy as int, cz as int, k2),
            forall|k2: int|
                0 <= k2 < k && offset_valid(
                    gx as int,
                    gy as int,
                    gz as int,
                    cx as int,
                    cy as int,
                    cz as int,
                    k2,
                ) ==> exists|i: int|
                    start <= i < list@.len() && #[trigger] list@[i] == offset_target(
                        gx as int,
                        gy as int,
                        cx as int,
                        cy as int,
                        cz as int,
                        k2,
                    ),
        decreases 27 - k,
    {
        let oz = k / 9;
        let oy = (k / 3) % 3;
        let ox = k % 3;
        // lexicographically after (0, 0, 0)
        let fwd = oz > 1 || (oz == 1 && (oy > 1 || (oy == 1 && ox > 1)));
        let inside = cz + oz >= 1 && cz + oz <= gz && cy + oy >= 1 && cy + oy <= gy && cx + ox
            >= 1 && cx + ox <= gx;
        if fwd && inside {
            let x = cx + ox - 1;
            let y = cy + oy - 1;
            let z = cz + oz - 1;
            proof {
                lemma_decode(gx as int, gy as int, gz as int, x as int, y as int, z as int);
                lemma_decode(gx as int, gy as int, gz as int, cx as int, cy as int, cz as int);
                assert(z * gxy <= gx * gy * gz) by (nonlinear_arith)
                    requires
                        z < gz,
                        gxy == gx * gy,
                ;
                assert(y * gx <= gx * gy) by (nonlinear_arith)
                    requires
                        y < gy,
                ;
            }
            let target = x + y * gx + z * gxy;
            proof {
                assert(target == offset_target(
                    gx as int,
                    gy as int,
                    cx as int,
                    cy as int,
                    cz as int,
                    k as int,
                ));
                assert forall|k2: int|
                    k < k2 < 27 && offset_valid(
                        gx as int,
                        gy as int,
                        gz as int,
                        cx as int,
                        cy as int,
                        cz as int,
                        k2,
                    ) implies target < offset_target(
                    gx as int,
                    gy as int,
                    cx as int,
                    cy as int,
                    cz as int,
                    k2,
                ) by {
                    lemma_offset_order(k as int, k2);
                    lemma_linear_lex(
                        gx as int,
                        gy as int,
                        x as int,
                        y as int,
                        z as int,
                        cx + off_x(k2) - 1,
                        cy + off_y(k2) - 1,
                        cz + off_z(k2) - 1,
                    );
                }
            }
            proof {
                assert(offset_valid(
                    gx as int,
                    gy as int,
                    gz as int,
                    cx as int,
                    cy as int,
                    cz as int,
                    k as int,
                ));
                assert forall|i: int| start <= i < list@.len() implies list@[i] < target by {}
            }
            let ghost old_list = list@;
            list.push(target);
            proof {
                let last = list@.len() - 1;
                assert(list@[last] == target);
                assert forall|k2: int|
                    0 <= k2 < k + 1 && offset_valid(
                        gx as int,
                        gy as int,
                        gz as int,
                        cx as int,
                        cy as int,
                        cz as int,
                        k2,
                    ) implies exists|i: int|
                    start <= i < list@.len() && #[trigger] list@[i] == offset_target(
                        gx as int,
                        gy as int,
                        cx as int,
                        cy as int,
                        cz as int,
                        k2,
                    ) by {
                    if k2 == k {
                        assert(list@[last] == target);
                    } else {
                        let i = choose|i: int|
                            start <= i < list@.len() - 1 && #[trigger] old_list[i]
                                == offset_target(
                                gx as int,
                                gy as int,
                                cx as int,
                                cy as int,
                                cz as int,
                                k2,
                            );
                        assert(list@[i] == old_list[i]);
                    }
                }
            }
        } else {
            proof {
                assert(!offset_valid(
                    gx as int,
                    gy as int,
                    gz as int,
                    cx as int,
                    cy as int,
                    cz as int,
                    k as int,
                ));
            }
        }
        k += 1;
    }
    proof {
        assert(list@.subrange(0, start as int) == old(list)@);
        assert forall|c2: int|
            #[trigger] forward(gx as int, gy as int, gz as int, c, c2) implies exists|i: int|
                start <= i < list@.len() && #[trigger] list@[i] == c2 by {
            lemma_encode(gx as int, gy as int, gz as int, c);
            lemma_encode(gx as int, gy as int, gz as int, c2);
            lemma_decode(gx as int, gy as int, gz as int, cx as int, cy as int, cz as int);
            let k2 = (coord_z(gx as int, gy as int, c2) - cz + 1) * 9 + (coord_y(
                gx as int,
                gy as int,
                c2,
            ) - cy + 1) * 3 + (coord_x(gx as int, gy as int, c2) - cx + 1);
            assert(offset_valid(
                gx as int,
                gy as int,
                gz as int,
                cx as int,
                cy as int,
                cz as int,
                k2,
            ));
            assert(offset_target(gx as int, gy as int, cx as int, cy as int, cz as int, k2) == c2);
        }
    }
}

/// A segment stays valid when both the start table and the list only grow at the end.
proof fn lemma_segment_extend(
    gx: int,
    gy: int,
    gz: int,
    s1: Seq<usize>,
    l1: Seq<usize>,
    s2: Seq<usize>,
    l2: Seq<usize>,
    c: int,
)
    requires
        segment_ok(gx, gy, gz, s1, l1, c),
        s1.len() <= s2.len(),
        forall|i: int| 0 <= i < s1.len() ==> s2[i] == s1[i],
        l1.len() <= l2.len(),
        forall|i: int| 0 <= i < l1.len() ==> l2[i] == l1[i],
    ensures
        segment_ok(gx, gy, gz, s2, l2, c),
{
    let lo = s1[c] as int;
    let hi = s1[c + 1] as int;
    assert(s2[c] == s1[c] && s2[c + 1] == s1[c + 1]);
    assert forall|i: int, j: int| lo <= i < j < hi implies l2[i] < l2[j] by {
        assert(l1[i] < l1[j]);
    }
    assert forall|i: int| lo <= i < hi implies forward(gx, gy, gz, c, #[trigger] l2[i] as int) by {
        assert(l2[i] == l1[i]);
    }
    assert forall|c2: int| #[trigger] forward(gx, gy, gz, c, c2) implies exists|i: int|
        lo <= i < hi && #[trigger] l2[i] == c2 by {
        let i = choose|i: int| lo <= i < hi && #[trigger] l1[i] == c2;
        assert(l2[i] == c2);
    }
}

/// Pairs (a, b0), (a, b0 + 1), ..., (a, b1 - 1).
pub open spec fn row(a: int, b0: int, b1: int) -> Seq<(usize, usize)> {
    Seq::new(
        if b1 > b0 {
            (b1 - b0) as nat
        } else {
            0
        },
        |j: int| (a as usize, (b0 + j) as usize),
    )
}

/// Pairs a < b of the range `s0 .. s1` with `a` below `a_end`, by `a` then `b`.
pub open spec fn triangle(s0: int, a_end: int, s1: int) -> Seq<(usize, usize)>
    decreases a_end - s0,
{
    if a_end <= s0 {
        Seq::empty()
    } else {
        triangle(s0, a_end - 1, s1) + row(a_end - 1, a_end, s1)
    }
}

/// Pairs of `s0 .. a_end` with `t0 .. t1`, by `a` then `b`.
pub open spec fn rect(s0: int, a_end: int, t0: int, t1: int) -> Seq<(usize, usize)>
    decreases a_end - s0,
{
    if a_end <= s0 {
        Seq::empty()
    } else {
        rect(s0, a_end - 1, t0, t1) + row(a_end - 1, t0, t1)
    }
}

proof fn lemma_rect_empty(s0: int, a_end: int, t: int)
    ensures
        rect(s0, a_end, t, t) =~= Seq::<(usize, usize)>::empty(),
    decreases a_end - s0,
{
    if a_end > s0 {
        lemma_rect_empty(s0, a_end - 1, t);
    }
}

pub open spec fn at_least_one(v: int) -> int {
    if v < 1 {
        1
    } else {
        v
    }
}

/// Clamps a raw cell coordinate into `0..g`.
pub open spec fn clamp_coord(v: int, g: int) -> int {
    if v < 0 {
        0
    } else if v > g - 1 {
        g - 1
    } else {
        v
    }
}

/// Distance between two integers.
pub open spec fn dist(a: int, b: int) -> int {
    if a >= b {
        a - b
    } else {
        b - a
    }
}

/// Raising values below one to one keeps every value from one up unchanged: it is the larger
/// of the value and one.
pub proof fn lemma_at_least_one_is_max(v: int)
    ensures
        at_least_one(v) >= 1,
        at_least_one(v) >= v,
        v >= 1 ==> at_least_one(v) == v,
        v < 1 ==> at_least_one(v) == 1,
{
}

/// Clamping a coordinate into `0 .. g` gives the coordinate of the box nearest to it: it lies
/// in the box, no coordinate of the box is closer, a coordinate inside the box is kept, and
/// one at or past the far side lands on the last coordinate.
pub proof fn lemma_clamp_coord_nearest(v: int, g: int)
    requires
        g > 0,
    ensures
        0 <= clamp_coord(v, g) < g,
        forall|y: int| 0 <= y < g ==> dist(clamp_coord(v, g), v) <= #[trigger] dist(y, v),
        0 <= v < g ==> clamp_coord(v, g) == v,
        v >= g ==> clamp_coord(v, g) == g - 1,
        v < 0 ==> clamp_coord(v, g) == 0,
{
}

/// Clamping is monotone: a larger raw coordinate never lands on a smaller cell coordinate.
pub proof fn lemma_clamp_coord_monotone(v1: int, v2: int, g: int)
    requires
        g > 0,
        v1 <= v2,
    ensures
        clamp_coord(v1, g) <= clamp_coord(v2, g),
{
}

/// The integer side of the SPH spatial hash grid: box dimensions in cells, the
/// per-cell particle ranges after the counting sort, and the forward neighbour
/// cell lists that let pair loops visit each cell pair once.
pub struct Grid {
    gx: usize,
    gy: usize,
    gz: usize,
    n: usize,
    cell_start: Vec<usize>,
    cursor: Vec<usize>,
    cell_items: Vec<usize>,
    fwd_start: Vec<usize>,
    fwd_list: Vec<usize>,
}

impl Grid {
    pub closed spec fn size_x(&self) -> int {
        self.gx as int
    }

    pub closed spec fn size_y(&self) -> int {
        self.gy as int
    }

    pub closed spec fn size_z(&self) -> int {
        self.gz as int
    }

    /// Number of particles the grid sorts.
    pub closed spec fn count(&self) -> int {
        self.n as int
    }

    /// `starts()[c] .. starts()[c + 1]` is the slot range of cell `c`.
    pub closed spec fn starts(&self) -> Seq<usize> {
        self.cell_start@
    }

    /// `items()[k]` is the particle stored in slot `k`.
    pub closed spec fn items(&self) -> Seq<usize> {
        self.cell_items@
    }

    /// `fwd_cells()[fwd_starts()[c] .. fwd_starts()[c + 1]]` are the forward neighbours of `c`.
    pub closed spec fn fwd_starts(&self) -> Seq<usize> {
        self.fwd_start@
    }

    pub closed spec fn fwd_cells(&self) -> Seq<usize> {
        self.fwd_list@
    }

    pub closed spec fn scratch_ok(&self) -> bool {
        self.cursor@.len() + 1 == self.cell_start@.len()
    }

    pub open spec fn num_cells(&self) -> int {
        self.size_x() * self.size_y() * self.size_z()
    }

    pub open spec fn is_forward(&self, c1: int, c2: int) -> bool {
        forward(self.size_x(), self.size_y(), self.size_z(), c1, c2)
    }

    pub open spec fn are_neighbours(&self, c1: int, c2: int) -> bool {
        neighbours(self.size_x(), self.size_y(), self.size_z(), c1, c2)
    }

    pub open spec fn fwd_ok(&self) -> bool {
        &&& self.fwd_starts().len() == self.num_cells() + 1
        &&& self.fwd_starts()[0] == 0
        &&& self.fwd_starts()[self.num_cells()] == self.fwd_cells().len()
        &&& forall|c: int|
            0 <= c < self.num_cells() ==> #[trigger] segment_ok(
                self.size_x(),
                self.size_y(),
                self.size_z(),
                self.fwd_starts(),
                self.fwd_cells(),
                c,
            )
    }

    pub open spec fn starts_ok(&self) -> bool {
        &&& self.starts().len() == self.num_cells() + 1
        &&& self.starts()[0] == 0
        &&& forall|i: int, j: int|
            0 <= i <= j <= self.num_cells() ==> self.starts()[i] <= self.starts()[j]
        &&& self.starts()[self.num_cells()] <= self.count()
    }

    pub open spec fn wf(&self) -> bool {
        &&& self.size_x() > 0
        &&& self.size_y() > 0
        &&& self.size_z() > 0
        &&& self.num_cells() <= i32::MAX
        &&& self.fwd_ok()
        &&& self.starts_ok()
        &&& self.items().len() == self.count()
        &&& forall|k: int| 0 <= k < self.count() ==> #[trigger] self.items()[k] < self.count()
        &&& self.scratch_ok()
    }

    /// The cell dimensions chosen for the box, each at least one; the particle count; and
    /// empty cell ranges until the first sort.
    pub fn new(gx: i32, gy: i32, gz: i32, n: usize) -> (g: Grid)
        requires
            at_least_one(gx as int) * at_least_one(gy as int) * at_least_one(gz as int)
                <= i32::MAX,
        ensures
            g.wf(),
            g.size_x() == at_least_one(gx as int),
            g.size_y() == at_least_one(gy as int),
            g.size_z() == at_least_one(gz as int),
            gx >= 1 ==> g.size_x() == gx,
            gy >= 1 ==> g.size_y() == gy,
            gz >= 1 ==> g.size_z() == gz,
            gx < 1 ==> g.size_x() == 1,
            gy < 1 ==> g.size_y() == 1,
            gz < 1 ==> g.size_z() == 1,
            g.count() == n,
            forall|c: int| 0 <= c <= g.num_cells() ==> #[trigger] g.starts()[c] == 0,
            forall|k: int| 0 <= k < n ==> #[trigger] g.items()[k] == 0,
    {
        let gx: usize = if gx < 1 { 1 } else { gx as usize };
        let gy: usize = if gy < 1 { 1 } else { gy as usize };
        let gz: usize = if gz < 1 { 1 } else { gz as usize };
        proof {
            lemma_dims_bounded(gx as int, gy as int, gz as int);
        }
        let cells: usize = gx * gy * gz;
        let cell_start = zeros(cells + 1);
        let cursor = zeros(cells);
        let (fwd_start, fwd_list) = Grid::build_fwd(gx, gy, gz);
        let cell_items = zeros(n);
        Grid { gx, gy, gz, n, cell_start, cursor, cell_items, fwd_start, fwd_list }
    }

    /// Forward neighbour cell lists: for every unordered pair of adjacent cells
    /// exactly one direction is stored, so pair loops visit each cell pair once.
    fn build_fwd(gx: usize, gy: usize, gz: usize) -> (r: (Vec<usize>, Vec<usize>))
        requires
            gx > 0,
            gy > 0,
            gz > 0,
            gx * gy * gz <= i32::MAX,
        ensures
            r.0@.len() == gx * gy * gz + 1,
            r.0@[0] == 0,
            r.0@[gx * gy * gz] == r.1@.len(),
            forall|c: int|
                0 <= c < gx * gy * gz ==> #[trigger] segment_ok(
                    gx as int,
                    gy as int,
                    gz as int,
                    r.0@,
                    r.1@,
                    c,
                ),
    {
        proof {
            lemma_dims_bounded(gx as int, gy as int, gz as int);
        }
        let gxy = gx * gy;
        let mut fwd_start: Vec<usize> = Vec::new();
        fwd_start.push(0);
        let mut fwd_list: Vec<usize> = Vec::new();
        let mut c: usize = 0;
        let mut cz: usize = 0;
        while cz < gz
            invariant
                gx > 0,
                gy > 0,
                gz > 0,
                gxy == gx * gy,
                gx * gy * gz <= i32::MAX,
                gx * gy <= gx * gy * gz,
                cz <= gz,
                c == cz * gxy,
                fwd_start@.len() == c + 1,
                fwd_start@[0] == 0,
                fwd_start@[c as int] == fwd_list@.len(),
                forall|c1: int|
                    0 <= c1 < c ==> #[trigger] segment_ok(
                        gx as int,
                        gy as int,
                        gz as int,
                        fwd_start@,
                        fwd_list@,
                        c1,
                    ),
            decreases gz - cz,
        {
            proof {
                assert(cz * gxy + gxy <= gx * gy * gz) by (nonlinear_arith)
                    requires
                        cz < gz,
                        gxy == gx * gy,
                ;
            }
            let mut cy: usize = 0;
            while cy < gy
                invariant
                    gx > 0,
                    gy > 0,
                    gz > 0,
                    gxy == gx * gy,
                    gx * gy * gz <= i32::MAX,
                    cz < gz,
                    cy <= gy,
                    cz * gxy + gxy <= gx * gy * gz,
                    c == cz * gxy + cy * gx,
                    fwd_start@.len() == c + 1,
                    fwd_start@[0] == 0,
                    fwd_start@[c as int] == fwd_list@.len(),
                    forall|c1: int|
                        0 <= c1 < c ==> #[trigger] segment_ok(
                            gx as int,
                            gy as int,
                            gz as int,
                            fwd_start@,
                            fwd_list@,
                            c1,
                        ),
                decreases gy - cy,
            {
                proof {
                    assert(cy * gx + gx <= gxy) by (nonlinear_arith)
                        requires
                            cy < gy,
                            gxy == gx * gy,
                    ;
                }
                let mut cx: usize = 0;
                while cx < gx
                    invariant
                        gx > 0,
                        gy > 0,
                        gz > 0,
                        gxy == gx * gy,
                        gx * gy * gz <= i32::MAX,
                        cz < gz,
                        cy < gy,
                        cx <= gx,
                        cz * gxy + gxy <= gx * gy * gz,
                        cy * gx + gx <= gxy,
                        c == cz * gxy + cy * gx + cx,
                        fwd_start@.len() == c + 1,
                        fwd_start@[0] == 0,
                        fwd_start@[c as int] == fwd_list@.len(),
                        forall|c1: int|
                            0 <= c1 < c ==> #[trigger] segment_ok(
                                gx as int,
                                gy as int,
                                gz as int,
                                fwd_start@,
                                fwd_list@,
                                c1,
                            ),
                    decreases gx - cx,
                {
                    let ghost s1 = fwd_start@;
                    let ghost l1 = fwd_list@;
                    push_forward(gx, gy, gz, cx, cy, cz, &mut fwd_list);
                    c += 1;
                    fwd_start.push(fwd_list.len());
                    proof {
                        assert forall|i: int| 0 <= i < l1.len() implies fwd_list@[i] == l1[i] by {
                            assert(fwd_list@.subrange(0, l1.len() as int)[i] == l1[i]);
                        }
                        assert forall|c1: int| 0 <= c1 < c implies #[trigger] segment_ok(
                            gx as int,
                            gy as int,
                            gz as int,
                            fwd_start@,
                            fwd_list@,
                            c1,
                        ) by {
                            if c1 < c - 1 {
                                lemma_segment_extend(
                                    gx as int,
                                    gy as int,
                                    gz as int,
                                    s1,
                                    l1,
                                    fwd_start@,
                                    fwd_list@,
                                    c1,
                                );
                            } else {
                                assert(c1 == linear(
                                    gx as int,
                                    gy as int,
                                    cx as int,
                                    cy as int,
                                    cz as int,
                                ));
                            }
                        }
                    }
                    cx += 1;
                }
                proof {
                    assert(c == cz * gxy + (cy + 1) * gx) by (nonlinear_arith)
                        requires
                            c == cz * gxy + cy * gx + gx,
                    ;
                }
                cy += 1;
            }
            proof {
                assert(c == (cz + 1) * gxy) by (nonlinear_arith)
                    requires
                        c == cz * gxy + gy * gx,
                        gxy == gx * gy,
                ;
            }
            cz += 1;
        }
        proof {
            assert(c == gx * gy * gz) by (nonlinear_arith)
                requires
                    c == gz * gxy,
                    gxy == gx * gy,
            ;
        }
        (fwd_start, fwd_list)
    }

    /// Slot `k` belongs to cell `c`.
    pub open spec fn in_cell(&self, c: int, k: int) -> bool {
        &&& 0 <= c < self.num_cells()
        &&& self.starts()[c] <= k < self.starts()[c + 1]
    }

    /// The grid is well formed and its cell ranges cover every particle.
    pub open spec fn sorted(&self) -> bool {
        &&& self.wf()
        &&& self.starts()[self.num_cells()] == self.count()
    }

    /// What a re-sort leaves unchanged: dimensions, particle count, forward lists.
    pub open spec fn same_layout(&self, other: &Grid) -> bool {
        &&& self.size_x() == other.size_x()
        &&& self.size_y() == other.size_y()
        &&& self.size_z() == other.size_z()
        &&& self.count() == other.count()
        &&& self.fwd_starts() == other.fwd_starts()
        &&& self.fwd_cells() == other.fwd_cells()
    }

    /// Counting sort of the particles by cell: cell `c` gets the slot range
    /// `starts()[c] .. starts()[c + 1]`, and the slots of a cell hold its particles in
    /// increasing index order.
    pub fn sort_by_cell(&mut self, cell_ids: &Vec<usize>)
        requires
            old(self).wf(),
            cell_ids@.len() == old(self).count(),
            forall|i: int|
                0 <= i < cell_ids@.len() ==> #[trigger] cell_ids@[i] < old(self).num_cells(),
        ensures
            final(self).sorted(),
            final(self).same_layout(old(self)),
            forall|c: int|
                0 <= c <= final(self).num_cells() ==> #[trigger] final(self).starts()[c]
                    == count_lt(cell_ids@, c),
            forall|i: int|
                0 <= i < final(self).count() ==> #[trigger] final(self).items()[sorted_slot(
                    cell_ids@,
                    i,
                )] == i,
            forall|k: int|
                0 <= k < final(self).count() ==> sorted_slot(
                    cell_ids@,
                    #[trigger] final(self).items()[k] as int,
                ) == k,
            forall|c: int, k: int|
                #[trigger] final(self).in_cell(c, k) ==> cell_ids@[final(self).items()[k] as int]
                    == c,
            forall|k1: int, k2: int|
                0 <= k1 < k2 < final(self).count() ==> #[trigger] final(self).items()[k1]
                    != #[trigger] final(self).items()[k2],
            forall|c: int, k1: int, k2: int|
                #[trigger] final(self).in_cell(c, k1) && #[trigger] final(self).in_cell(c, k2) && k1
                    < k2 ==> final(self).items()[k1] < final(self).items()[k2],
            forall|c: int|
                0 <= c < final(self).num_cells() ==> #[trigger] final(self).starts()[c + 1]
                    - final(self).starts()[c] == count_eq(cell_ids@, c),
    {
        let ghost ids = cell_ids@;
        let n = self.n;
        let cells = self.cell_start.len() - 1;
        proof {
            lemma_dims_bounded(self.gx as int, self.gy as int, self.gz as int);
        }
        let mut c: usize = 0;
        while c < cells + 1
            invariant
                self.same_layout(old(self)),
                self.wf(),
                cells == self.num_cells(),
                c <= cells + 1,
                forall|j: int| 0 <= j < c ==> #[trigger] self.cell_start@[j] == 0,
            decreases cells + 1 - c,
        {
            self.cell_start[c] = 0;
            c += 1;
        }
        let mut i: usize = 0;
        while i < n
            invariant
                self.same_layout(old(self)),
                self.cell_start@.len() == cells + 1,
                self.cursor@.len() == cells,
                self.cell_items@.len() == n,
                forall|k: int| 0 <= k < n ==> #[trigger] self.cell_items@[k] < n,
                n == self.count(),
                cells == self.num_cells(),
                cells <= i32::MAX,
                ids == cell_ids@,
                ids.len() == n,
                forall|j: int| 0 <= j < n ==> #[trigger] ids[j] < cells,
                i <= n,
                self.cell_start@[0] == 0,
                forall|d: int|
                    0 <= d < cells ==> #[trigger] self.cell_start@[d + 1] == count_eq(
                        ids.take(i as int),
                        d,
                    ),
            decreases n - i,
        {
            let d = cell_ids[i];
            proof {
                lemma_count_take_step(ids, i as int, d as int);
                lemma_count_bounds(ids.take(i as int), d as int);
                assert forall|e: int| 0 <= e < cells implies #[trigger] count_eq(
                    ids.take(i + 1),
                    e,
                ) == count_eq(ids.take(i as int), e) + if ids[i as int] == e {
                    1nat
                } else {
                    0nat
                } by {
                    lemma_count_take_step(ids, i as int, e);
                }
            }
            self.cell_start[d + 1] = self.cell_start[d + 1] + 1;
            i += 1;
        }
        proof {
            assert(ids.take(n as int) =~= ids);
            lemma_count_lt_zero(ids);
            assert forall|d: int| 0 < d <= cells implies #[trigger] self.cell_start@[d] == count_eq(
                ids,
                d - 1,
            ) by {
                assert(self.cell_start@[(d - 1) + 1] == count_eq(ids.take(n as int), d - 1));
            }
        }
        let mut c: usize = 0;
        while c < cells
            invariant
                self.same_layout(old(self)),
                self.cell_start@.len() == cells + 1,
                self.cursor@.len() == cells,
                self.cell_items@.len() == n,
                forall|k: int| 0 <= k < n ==> #[trigger] self.cell_items@[k] < n,
                n == self.count(),
                cells == self.num_cells(),
                ids == cell_ids@,
                ids.len() == n,
                c <= cells,
                forall|d: int| 0 <= d <= c ==> #[trigger] self.cell_start@[d] == count_lt(ids, d),
                forall|d: int|
                    c < d <= cells ==> #[trigger] self.cell_start@[d] == count_eq(ids, d - 1),
            decreases cells - c,
        {
            proof {
                lemma_count_lt_step(ids, c as int);
                lemma_count_bounds(ids, c as int + 1);
            }
            self.cell_start[c + 1] = self.cell_start[c + 1] + self.cell_start[c];
            c += 1;
        }
        let mut c: usize = 0;
        while c < cells
            invariant
                self.same_layout(old(self)),
                self.cell_start@.len() == cells + 1,
                self.cursor@.len() == cells,
                c <= cells,
                forall|d: int| 0 <= d < c ==> #[trigger] self.cursor@[d] == self.cell_start@[d],
                self.cell_items@.len() == n,
                forall|k: int| 0 <= k < n ==> #[trigger] self.cell_items@[k] < n,
                forall|d: int| 0 <= d <= cells ==> #[trigger] self.cell_start@[d] == count_lt(ids, d),
            decreases cells - c,
        {
            self.cursor[c] = self.cell_start[c];
            c += 1;
        }
        proof {
            assert forall|a: int, b: int| 0 <= a <= b <= cells implies self.cell_start@[a]
                <= self.cell_start@[b] by {
                lemma_count_lt_mono(ids, a, b);
            }
            assert forall|d: int| 0 <= d < cells implies #[trigger] self.cell_start@[d + 1]
                == self.cell_start@[d] + count_eq(ids, d) by {
                lemma_count_lt_step(ids, d);
            }
            lemma_count_lt_all(ids, cells as int);
            assert(ids.take(0) =~= Seq::<usize>::empty());
        }
        let mut i: usize = 0;
        while i < n
            invariant
                self.same_layout(old(self)),
                self.cell_start@.len() == cells + 1,
                self.cursor@.len() == cells,
                self.cell_items@.len() == n,
                forall|k: int| 0 <= k < n ==> #[trigger] self.cell_items@[k] < n,
                n == self.count(),
                cells == self.num_cells(),
                ids == cell_ids@,
                ids.len() == n,
                forall|j: int| 0 <= j < n ==> #[trigger] ids[j] < cells,
                i <= n,
                forall|d: int| 0 <= d <= cells ==> #[trigger] self.cell_start@[d] == count_lt(ids, d),
                forall|a: int, b: int|
                    0 <= a <= b <= cells ==> self.cell_start@[a] <= self.cell_start@[b],
                forall|d: int|
                    0 <= d < cells ==> #[trigger] self.cell_start@[d + 1] == self.cell_start@[d]
                        + count_eq(ids, d),
                forall|d: int|
                    0 <= d < cells ==> #[trigger] self.cursor@[d] == self.cell_start@[d]
                        + count_eq(ids.take(i as int), d),
                self.cell_start@[cells as int] == n,
                forall|d: int, k: int|
                    #![trigger self.cursor@[d], self.cell_items@[k]]
                    0 <= d < cells && self.cell_start@[d] <= k < self.cursor@[d] ==> {
                        &&& self.cell_items@[k] < i
                        &&& ids[self.cell_items@[k] as int] == d
                        &&& sorted_slot(ids, self.cell_items@[k] as int) == k
                    },
            decreases n - i,
        {
            let d = cell_ids[i];
            let p = self.cursor[d];
            proof {
                lemma_count_take_le(ids, i as int, d as int);
                assert(p == sorted_slot(ids, i as int));
                assert(p < self.cell_start@[d + 1]);
                assert(self.cell_start@[d + 1] <= self.cell_start@[cells as int]);
                assert forall|e: int| 0 <= e < cells implies #[trigger] count_eq(
                    ids.take(i + 1),
                    e,
                ) == count_eq(ids.take(i as int), e) + if ids[i as int] == e {
                    1nat
                } else {
                    0nat
                } by {
                    lemma_count_take_step(ids, i as int, e);
                }
            }
            let ghost old_items = self.cell_items@;
            self.cell_items[p] = i;
            self.cursor[d] = p + 1;
            proof {
                assert forall|e: int, k: int|
                    #![trigger self.cursor@[e], self.cell_items@[k]]
                    0 <= e < cells && self.cell_start@[e] <= k < self.cursor@[e] implies {
                    &&& self.cell_items@[k] < i + 1
                    &&& ids[self.cell_items@[k] as int] == e
                    &&& sorted_slot(ids, self.cell_items@[k] as int) == k
                } by {
                    lemma_count_take_le(ids, i as int, e);
                    assert(self.cell_start@[e + 1] <= self.cell_start@[cells as int]);
                    if e != d {
                        if e < d {
                            assert(self.cell_start@[e + 1] <= self.cell_start@[d as int]);
                        } else {
                            assert(self.cell_start@[d + 1] <= self.cell_start@[e]);
                        }
                        assert(k != p);
                        assert(self.cell_items@[k] == old_items[k]);
                    } else if k != p {
                        assert(self.cell_items@[k] == old_items[k]);
                    } else {
                        assert(self.cell_items@[k] == i);
                    }
                }
            }
            i += 1;
        }
        proof {
            assert(ids.take(n as int) =~= ids);
            assert forall|c: int, k: int| #[trigger] self.in_cell(c, k) implies cell_ids@[self.items()[
                k] as int] == c by {
                assert(self.cursor@[c] == self.cell_start@[c + 1]);
            }
            assert forall|k: int| 0 <= k < n implies sorted_slot(
                cell_ids@,
                #[trigger] self.items()[k] as int,
            ) == k by {
                let c = lemma_range_of(self.cell_start@, cells as int, k);
                assert(self.cursor@[c] == self.cell_start@[c + 1]);
            }
            assert forall|c: int, k1: int, k2: int|
                #[trigger] self.in_cell(c, k1) && #[trigger] self.in_cell(c, k2) && k1 < k2 implies self.items()[
                k1] < self.items()[k2] by {
                let p = self.items()[k1] as int;
                let q = self.items()[k2] as int;
                assert(self.cursor@[c] == self.cell_start@[c + 1]);
                assert(self.cell_start@[c + 1] <= self.cell_start@[cells as int]);
                assert(sorted_slot(ids, p) == k1);
                assert(sorted_slot(ids, q) == k2);
                assert(ids[p] == c && ids[q] == c);
                if q <= p {
                    lemma_count_take_le(ids.take(p), q, c);
                    assert(ids.take(p).take(q) =~= ids.take(q));
                }
            }
            assert forall|j: int| 0 <= j < n implies #[trigger] self.items()[sorted_slot(
                cell_ids@,
                j,
            )] == j by {
                let d = ids[j] as int;
                let p = sorted_slot(ids, j);
                lemma_count_take_le(ids, j, d);
                assert(self.cell_start@[d] <= p < self.cell_start@[d + 1]);
                assert(self.cursor@[d] == self.cell_start@[d + 1]);
                let q = self.cell_items@[p] as int;
                assert(sorted_slot(ids, q) == p);
                assert(ids[q] == d);
                // two particles of one cell share a slot only if they have equal rank
                if q != j {
                    if q < j {
                        lemma_count_take_le(ids.take(j), q, d);
                        assert(ids.take(j).take(q) =~= ids.take(q));
                        assert(ids.take(j)[q] == d);
                    } else {
                        lemma_count_take_le(ids.take(q), j, d);
                        assert(ids.take(q).take(j) =~= ids.take(j));
                        assert(ids.take(q)[j] == d);
                    }
                }
            }
        }
    }

    /// Two slots of cell `c` form a pair, smaller slot first.
    pub open spec fn same_cell_pair(&self, c: int, a: int, b: int) -> bool {
        &&& self.in_cell(c, a)
        &&& self.in_cell(c, b)
        &&& a < b
    }

    /// Slot `a` of cell `c` with a slot `b` of one of the forward neighbours of `c` stored
    /// before position `f` of the forward list.
    pub open spec fn fwd_pair_before(&self, c: int, f: int, a: int, b: int) -> bool {
        &&& self.in_cell(c, a)
        &&& exists|g: int|
            self.fwd_starts()[c] <= g < f && #[trigger] self.in_cell(self.fwd_cells()[g] as int, b)
    }

    /// The pairs that the pair loops visit from cell `c`: pairs inside `c`, and pairs with a
    /// forward neighbour of `c`.
    pub open spec fn candidate(&self, c: int, a: int, b: int) -> bool {
        ||| self.same_cell_pair(c, a, b)
        ||| self.fwd_pair_before(c, self.fwd_starts()[c + 1] as int, a, b)
    }

    /// Pairs of cell `c` with the forward neighbours stored before position `f` of its
    /// forward list, neighbour by neighbour.
    pub open spec fn fwd_pairs(&self, c: int, f: int) -> Seq<(usize, usize)>
        decreases f - self.fwd_starts()[c],
    {
        if f <= self.fwd_starts()[c] {
            Seq::empty()
        } else {
            self.fwd_pairs(c, f - 1) + rect(
                self.starts()[c] as int,
                self.starts()[c + 1] as int,
                self.starts()[self.fwd_cells()[f - 1] as int] as int,
                self.starts()[self.fwd_cells()[f - 1] + 1] as int,
            )
        }
    }

    /// The order in which the pair loops visit the pairs of cell `c`: first the pairs inside
    /// `c`, then, neighbour by neighbour in forward-list order, the pairs with each forward
    /// neighbour; each block by first slot, then second slot.
    pub open spec fn pair_seq(&self, c: int) -> Seq<(usize, usize)> {
        triangle(self.starts()[c] as int, self.starts()[c + 1] as int, self.starts()[c + 1] as int)
            + self.fwd_pairs(c, self.fwd_starts()[c + 1] as int)
    }

    proof fn lemma_fwd_pairs_of_empty_cell(&self, c: int, f: int)
        requires
            self.starts()[c] == self.starts()[c + 1],
        ensures
            self.fwd_pairs(c, f) =~= Seq::<(usize, usize)>::empty(),
        decreases f - self.fwd_starts()[c],
    {
        if f > self.fwd_starts()[c] {
            self.lemma_fwd_pairs_of_empty_cell(c, f - 1);
        }
    }

    /// The candidate pairs of cell `c` (slot indices), each once; `out` is reused.
    pub fn cell_pairs(&self, c: usize, out: &mut Vec<(usize, usize)>)
        requires
            self.wf(),
            c < self.num_cells(),
        ensures
            forall|p: (usize, usize)|
                #[trigger] final(out)@.contains(p) <==> self.candidate(c as int, p.0 as int, p.1 as int),
            final(out)@.no_duplicates(),
            final(out)@ == self.pair_seq(c as int),
    {
        proof {
            lemma_dims_bounded(self.gx as int, self.gy as int, self.gz as int);
            assert(segment_ok(
                self.size_x(),
                self.size_y(),
                self.size_z(),
                self.fwd_starts(),
                self.fwd_cells(),
                c as int,
            ));
        }
        out.clear();
        let s0 = self.cell_start[c];
        let s1 = self.cell_start[c + 1];
        if s0 == s1 {
            proof {
                assert forall|p: (usize, usize)| #[trigger] out@.contains(p) <==> self.candidate(
                    c as int,
                    p.0 as int,
                    p.1 as int,
                ) by {
                    if out@.contains(p) {
                        let i = choose|i: int| 0 <= i < out@.len() && out@[i] == p;
                    }
                }
                self.lemma_fwd_pairs_of_empty_cell(c as int, self.fwd_starts()[c + 1] as int);
                assert(out@ =~= self.pair_seq(c as int));
            }
            return;
        }
        let mut a = s0;
        while a < s1
            invariant
                self.wf(),
                c < self.num_cells(),
                s0 == self.starts()[c as int],
                s1 == self.starts()[c + 1],
                s0 <= a <= s1,
                out@.no_duplicates(),
                out@ == triangle(s0 as int, a as int, s1 as int),
                forall|p: (usize, usize)|
                    #[trigger] out@.contains(p) <==> (self.same_cell_pair(
                        c as int,
                        p.0 as int,
                        p.1 as int,
                    ) && p.0 < a),
            decreases s1 - a,
        {
            let mut b = a + 1;
            while b < s1
                invariant
                    self.wf(),
                    c < self.num_cells(),
                    s0 == self.starts()[c as int],
                    s1 == self.starts()[c + 1],
                    s0 <= a < s1,
                    a < b <= s1,
                    out@.no_duplicates(),
                    out@ == triangle(s0 as int, a as int, s1 as int) + row(a as int, a + 1, b as int),
                    forall|p: (usize, usize)|
                        #[trigger] out@.contains(p) <==> (self.same_cell_pair(
                            c as int,
                            p.0 as int,
                            p.1 as int,
                        ) && (p.0 < a || (p.0 == a && p.1 < b))),
                decreases s1 - b,
            {
                proof {
                    lemma_push_fresh(out@, (a, b));
                    assert(row(a as int, a + 1, b + 1) =~= row(a as int, a + 1, b as int).push(
                        (a, b),
                    ));
                }
                out.push((a, b));
                b += 1;
            }
            proof {
                assert(triangle(s0 as int, a + 1, s1 as int) == triangle(s0 as int, a as int, s1 as int)
                    + row(a as int, a + 1, s1 as int));
            }
            a += 1;
        }
        proof {
            assert(out@ =~= triangle(s0 as int, s1 as int, s1 as int) + self.fwd_pairs(
                c as int,
                self.fwd_starts()[c as int] as int,
            ));
        }
        let f_end = self.fwd_start[c + 1];
        let mut f = self.fwd_start[c];
        while f < f_end
            invariant
                self.wf(),
                c < self.num_cells(),
                s0 == self.starts()[c as int],
                s1 == self.starts()[c + 1],
                s0 < s1,
                f_end == self.fwd_starts()[c + 1],
                self.fwd_starts()[c as int] <= f <= f_end,
                out@ == triangle(s0 as int, s1 as int, s1 as int) + self.fwd_pairs(c as int, f as int),
                segment_ok(
                    self.size_x(),
                    self.size_y(),
                    self.size_z(),
                    self.fwd_starts(),
                    self.fwd_cells(),
                    c as int,
                ),
                out@.no_duplicates(),
                forall|p: (usize, usize)|
                    #[trigger] out@.contains(p) <==> (self.same_cell_pair(
                        c as int,
                        p.0 as int,
                        p.1 as int,
                    ) || self.fwd_pair_before(c as int, f as int, p.0 as int, p.1 as int)),
            decreases f_end - f,
        {
            let c2 = self.fwd_list[f];
            proof {
                lemma_forward_exactly_one(
                    self.size_x(),
                    self.size_y(),
                    self.size_z(),
                    c as int,
                    c as int,
                );
                assert(self.is_forward(c as int, c2 as int));
                assert(self.starts()[c2 + 1] <= self.starts()[self.num_cells()]);
            }
            let t0 = self.cell_start[c2];
            let t1 = self.cell_start[c2 + 1];
            if t0 != t1 {
                let mut a = s0;
                while a < s1
                    invariant
                        self.wf(),
                        c < self.num_cells(),
                        s0 == self.starts()[c as int],
                        s1 == self.starts()[c + 1],
                        f_end == self.fwd_starts()[c + 1],
                        self.fwd_starts()[c as int] <= f < f_end,
                        segment_ok(
                            self.size_x(),
                            self.size_y(),
                            self.size_z(),
                            self.fwd_starts(),
                            self.fwd_cells(),
                            c as int,
                        ),
                        c2 == self.fwd_cells()[f as int],
                        self.is_forward(c as int, c2 as int),
                        t0 == self.starts()[c2 as int],
                        t1 == self.starts()[c2 + 1],
                        s0 <= a <= s1,
                        out@.no_duplicates(),
                        out@ == triangle(s0 as int, s1 as int, s1 as int) + self.fwd_pairs(
                            c as int,
                            f as int,
                        ) + rect(s0 as int, a as int, t0 as int, t1 as int),
                        forall|p: (usize, usize)|
                            #[trigger] out@.contains(p) <==> (self.same_cell_pair(
                                c as int,
                                p.0 as int,
                                p.1 as int,
                            ) || self.fwd_pair_before(c as int, f as int, p.0 as int, p.1 as int)
                                || (s0 <= p.0 < a && t0 <= p.1 < t1)),
                    decreases s1 - a,
                {
                    let mut b = t0;
                    while b < t1
                        invariant
                            self.wf(),
                            c < self.num_cells(),
                            s0 == self.starts()[c as int],
                            s1 == self.starts()[c + 1],
                            f_end == self.fwd_starts()[c + 1],
                            self.fwd_starts()[c as int] <= f < f_end,
                            segment_ok(
                                self.size_x(),
                                self.size_y(),
                                self.size_z(),
                                self.fwd_starts(),
                                self.fwd_cells(),
                                c as int,
                            ),
                            c2 == self.fwd_cells()[f as int],
                            self.is_forward(c as int, c2 as int),
                            t0 == self.starts()[c2 as int],
                            t1 == self.starts()[c2 + 1],
                            s0 <= a < s1,
                            t0 <= b <= t1,
                            out@.no_duplicates(),
                            out@ == triangle(s0 as int, s1 as int, s1 as int) + self.fwd_pairs(
                                c as int,
                                f as int,
                            ) + rect(s0 as int, a as int, t0 as int, t1 as int) + row(
                                a as int,
                                t0 as int,
                                b as int,
                            ),
                            forall|p: (usize, usize)|
                                #[trigger] out@.contains(p) <==> (self.same_cell_pair(
                                    c as int,
                                    p.0 as int,
                                    p.1 as int,
                                ) || self.fwd_pair_before(
                                    c as int,
                                    f as int,
                                    p.0 as int,
                                    p.1 as int,
                                ) || (s0 <= p.0 < a && t0 <= p.1 < t1) || (p.0 == a && t0 <= p.1
                                    < b)),
                        decreases t1 - b,
                    {
                        proof {
                            if self.in_cell(c as int, b as int) {
                                self.lemma_in_cell_unique(c as int, c2 as int, b as int);
                            }
                            if self.fwd_pair_before(c as int, f as int, a as int, b as int) {
                                let g = choose|g: int|
                                    self.fwd_starts()[c as int] <= g < f && #[trigger] self.in_cell(
                                        self.fwd_cells()[g] as int,
                                        b as int,
                                    );
                                self.lemma_in_cell_unique(
                                    self.fwd_cells()[g] as int,
                                    c2 as int,
                                    b as int,
                                );
                            }
                            lemma_push_fresh(out@, (a, b));
                            assert(row(a as int, t0 as int, b + 1) =~= row(
                                a as int,
                                t0 as int,
                                b as int,
                            ).push((a, b)));
                        }
                        out.push((a, b));
                        b += 1;
                    }
                    proof {
                        assert(rect(s0 as int, a + 1, t0 as int, t1 as int) == rect(
                            s0 as int,
                            a as int,
                            t0 as int,
                            t1 as int,
                        ) + row(a as int, t0 as int, t1 as int));
                        assert(out@ =~= triangle(s0 as int, s1 as int, s1 as int) + self.fwd_pairs(
                            c as int,
                            f as int,
                        ) + rect(s0 as int, a + 1, t0 as int, t1 as int));
                    }
                    a += 1;
                }
            } else {
                proof {
                    lemma_rect_empty(s0 as int, s1 as int, t0 as int);
                }
            }
            proof {
                assert(self.fwd_pairs(c as int, f + 1) == self.fwd_pairs(c as int, f as int) + rect(
                    s0 as int,
                    s1 as int,
                    t0 as int,
                    t1 as int,
                ));
                assert(out@ =~= triangle(s0 as int, s1 as int, s1 as int) + self.fwd_pairs(
                    c as int,
                    f + 1,
                ));
            }
            proof {
                assert forall|p: (usize, usize)|
                    #[trigger] out@.contains(p) <==> (self.same_cell_pair(
                        c as int,
                        p.0 as int,
                        p.1 as int,
                    ) || self.fwd_pair_before(c as int, f + 1, p.0 as int, p.1 as int)) by {
                    if self.fwd_pair_before(c as int, f + 1, p.0 as int, p.1 as int) {
                        if !self.fwd_pair_before(c as int, f as int, p.0 as int, p.1 as int) {
                            let g = choose|g: int|
                                self.fwd_starts()[c as int] <= g < f + 1 && #[trigger] self.in_cell(
                                    self.fwd_cells()[g] as int,
                                    p.1 as int,
                                );
                            assert(g == f);
                        }
                    }
                    if t0 <= p.1 < t1 && s0 <= p.0 < s1 {
                        assert(self.in_cell(self.fwd_cells()[f as int] as int, p.1 as int));
                    }
                }
            }
            f += 1;
        }
    }

    /// Cell `c1` stores `c2` in its forward list.
    pub open spec fn stores_forward(&self, c1: int, c2: int) -> bool {
        exists|f: int|
            self.fwd_starts()[c1] <= f < self.fwd_starts()[c1 + 1] && #[trigger] self.fwd_cells()[f]
                == c2
    }

    /// A cell's forward list holds exactly its forward neighbours.
    pub proof fn lemma_stores_forward(&self, c1: int, c2: int)
        requires
            self.wf(),
            0 <= c1 < self.num_cells(),
        ensures
            self.stores_forward(c1, c2) <==> self.is_forward(c1, c2),
    {
        assert(segment_ok(
            self.size_x(),
            self.size_y(),
            self.size_z(),
            self.fwd_starts(),
            self.fwd_cells(),
            c1,
        ));
        if self.stores_forward(c1, c2) {
            let f = choose|f: int|
                self.fwd_starts()[c1] <= f < self.fwd_starts()[c1 + 1] && #[trigger] self.fwd_cells()[f]
                    == c2;
            assert(self.is_forward(c1, self.fwd_cells()[f] as int));
        }
    }

    /// For every unordered pair of distinct neighbouring cells exactly one direction is
    /// stored, and no cell stores itself.
    pub proof fn lemma_cell_pair_stored_once(&self, c1: int, c2: int)
        requires
            self.wf(),
            self.are_neighbours(c1, c2),
        ensures
            !self.stores_forward(c1, c1),
            c1 != c2 ==> self.stores_forward(c1, c2) != self.stores_forward(c2, c1),
    {
        lemma_forward_exactly_one(self.size_x(), self.size_y(), self.size_z(), c1, c2);
        self.lemma_stores_forward(c1, c1);
        self.lemma_stores_forward(c1, c2);
        self.lemma_stores_forward(c2, c1);
    }

    /// After a sort every particle slot lies in exactly one cell.
    pub proof fn lemma_slot_has_cell(&self, k: int) -> (c: int)
        requires
            self.sorted(),
            0 <= k < self.count(),
        ensures
            self.in_cell(c, k),
            forall|c2: int| #[trigger] self.in_cell(c2, k) ==> c2 == c,
    {
        let c = lemma_range_of(self.starts(), self.num_cells(), k);
        assert forall|c2: int| #[trigger] self.in_cell(c2, k) implies c2 == c by {
            self.lemma_in_cell_unique(c2, c, k);
        }
        c
    }

    /// Each unordered pair of distinct slots in the same or in neighbouring cells is visited
    /// exactly once per pass: either as (a, b) from the cell of `a`, or as (b, a) from the cell
    /// of `b`, and never from another cell.
    pub proof fn lemma_pair_visited_once(&self, ca: int, cb: int, a: int, b: int)
        requires
            self.wf(),
            self.in_cell(ca, a),
            self.in_cell(cb, b),
            a != b,
            self.are_neighbours(ca, cb),
        ensures
            self.candidate(ca, a, b) != self.candidate(cb, b, a),
            forall|c: int| #[trigger] self.candidate(c, a, b) ==> c == ca,
            forall|c: int| #[trigger] self.candidate(c, b, a) ==> c == cb,
    {
        lemma_forward_exactly_one(self.size_x(), self.size_y(), self.size_z(), ca, cb);
        self.lemma_fwd_branch(ca, cb, a, b);
        self.lemma_fwd_branch(cb, ca, b, a);
        if ca == cb {
        } else {
            if self.in_cell(ca, b) {
                self.lemma_in_cell_unique(ca, cb, b);
            }
            if self.in_cell(cb, a) {
                self.lemma_in_cell_unique(ca, cb, a);
            }
        }
        assert forall|c: int| #[trigger] self.candidate(c, a, b) implies c == ca by {
            self.lemma_in_cell_unique(c, ca, a);
        }
        assert forall|c: int| #[trigger] self.candidate(c, b, a) implies c == cb by {
            self.lemma_in_cell_unique(c, cb, b);
        }
    }

    /// The forward branch of the candidate relation between slot `a` of `ca` and slot `b` of
    /// `cb` holds exactly when `cb` is a forward neighbour of `ca`.
    proof fn lemma_fwd_branch(&self, ca: int, cb: int, a: int, b: int)
        requires
            self.wf(),
            self.in_cell(ca, a),
            self.in_cell(cb, b),
        ensures
            self.fwd_pair_before(ca, self.fwd_starts()[ca + 1] as int, a, b) <==> self.is_forward(
                ca,
                cb,
            ),
    {
        self.lemma_stores_forward(ca, cb);
        let hi = self.fwd_starts()[ca + 1] as int;
        if self.fwd_pair_before(ca, hi, a, b) {
            let g = choose|g: int|
                self.fwd_starts()[ca] <= g < hi && #[trigger] self.in_cell(
                    self.fwd_cells()[g] as int,
                    b,
                );
            self.lemma_in_cell_unique(self.fwd_cells()[g] as int, cb, b);
        }
        if self.is_forward(ca, cb) {
            let f = choose|f: int|
                self.fwd_starts()[ca] <= f < hi && #[trigger] self.fwd_cells()[f] == cb;
            assert(self.in_cell(self.fwd_cells()[f] as int, b));
        }
    }

    /// Every visited pair joins two distinct slots whose cells are the same or neighbours.
    pub proof fn lemma_candidate_is_neighbour_pair(&self, c: int, a: int, b: int) -> (cb: int)
        requires
            self.wf(),
            self.candidate(c, a, b),
        ensures
            a != b,
            self.in_cell(c, a),
            self.in_cell(cb, b),
            self.are_neighbours(c, cb),
            0 <= a < self.count(),
            0 <= b < self.count(),
    {
        assert(self.starts()[c + 1] <= self.starts()[self.num_cells()]);
        if self.same_cell_pair(c, a, b) {
            lemma_encode(self.size_x(), self.size_y(), self.size_z(), c);
            c
        } else {
            let hi = self.fwd_starts()[c + 1] as int;
            let g = choose|g: int|
                self.fwd_starts()[c] <= g < hi && #[trigger] self.in_cell(
                    self.fwd_cells()[g] as int,
                    b,
                );
            assert(segment_ok(
                self.size_x(),
                self.size_y(),
                self.size_z(),
                self.fwd_starts(),
                self.fwd_cells(),
                c,
            ));
            let cb = self.fwd_cells()[g] as int;
            assert(self.is_forward(c, cb));
            lemma_forward_exactly_one(self.size_x(), self.size_y(), self.size_z(), c, cb);
            if a == b {
                self.lemma_in_cell_unique(c, cb, a);
            }
            assert(self.starts()[cb + 1] <= self.starts()[self.num_cells()]);
            cb
        }
    }

    /// Number of cells of the box.
    pub fn cells(&self) -> (r: usize)
        requires
            self.wf(),
        ensures
            r == self.num_cells(),
    {
        self.cell_start.len() - 1
    }

    /// Cells along x, y and z.
    pub fn dims(&self) -> (r: (usize, usize, usize))
        ensures
            r.0 == self.size_x(),
            r.1 == self.size_y(),
            r.2 == self.size_z(),
    {
        (self.gx, self.gy, self.gz)
    }

    /// Number of particles the grid sorts.
    pub fn particles(&self) -> (r: usize)
        ensures
            r == self.count(),
    {
        self.n
    }

    /// Slot range of cell `c`.
    pub fn cell_range(&self, c: usize) -> (r: (usize, usize))
        requires
            self.wf(),
            c < self.num_cells(),
        ensures
            r.0 == self.starts()[c as int],
            r.1 == self.starts()[c + 1],
    {
        (self.cell_start[c], self.cell_start[c + 1])
    }

    /// Particle stored in slot `k`.
    pub fn item(&self, k: usize) -> (r: usize)
        requires
            self.wf(),
            k < self.count(),
        ensures
            r == self.items()[k as int],
    {
        self.cell_items[k]
    }

    /// The forward neighbour cells of cell `c`, in increasing order.
    pub fn forward_cells(&self, c: usize) -> (r: Vec<usize>)
        requires
            self.wf(),
            c < self.num_cells(),
        ensures
            r@ == self.fwd_cells().subrange(
                self.fwd_starts()[c as int] as int,
                self.fwd_starts()[c + 1] as int,
            ),
    {
        proof {
            assert(segment_ok(
                self.size_x(),
                self.size_y(),
                self.size_z(),
                self.fwd_starts(),
                self.fwd_cells(),
                c as int,
            ));
        }
        let lo = self.fwd_start[c];
        let hi = self.fwd_start[c + 1];
        let mut r: Vec<usize> = Vec::new();
        let mut f = lo;
        while f < hi
            invariant
                lo <= f <= hi,
                hi <= self.fwd_list@.len(),
                r@ == self.fwd_list@.subrange(lo as int, f as int),
            decreases hi - f,
        {
            r.push(self.fwd_list[f]);
            f += 1;
        }
        r
    }

    /// A slot lies in at most one cell.
    pub proof fn lemma_in_cell_unique(&self, c1: int, c2: int, k: int)
        requires
            self.wf(),
            self.in_cell(c1, k),
            self.in_cell(c2, k),
        ensures
            c1 == c2,
    {
        if c1 < c2 {
            assert(self.starts()[c1 + 1] <= self.starts()[c2]);
        } else if c2 < c1 {
            assert(self.starts()[c2 + 1] <= self.starts()[c1]);
        }
    }

    /// Gathers particle data with three values per particle (x, y, z) into cell order:
    /// slot `k` receives the triple of particle `items()[k]`.
    pub fn gather3<T: Copy>(&self, src: &Vec<T>, dst: &mut Vec<T>)
        requires
            self.wf(),
            src@.len() == 3 * self.count(),
            old(dst)@.len() == 3 * self.count(),
        ensures
            final(dst)@.len() == 3 * self.count(),
            forall|i: int|
                0 <= i < 3 * self.count() ==> #[trigger] final(dst)@[i] == src@[3 * self.items()[i
                    / 3] + i % 3],
    {
        let n = self.n;
        let total = src.len();
        let mut k: usize = 0;
        while k < n
            invariant
                self.wf(),
                n == self.count(),
                total == 3 * n,
                src@.len() == 3 * n,
                dst@.len() == 3 * n,
                k <= n,
                forall|i: int|
                    0 <= i < 3 * k ==> #[trigger] dst@[i] == src@[3 * self.items()[i / 3] + i % 3],
            decreases n - k,
        {
            proof {
                assert(self.items()[k as int] < n);
            }
            let o = self.cell_items[k] * 3;
            let u = k * 3;
            dst[u] = src[o];
            dst[u + 1] = src[o + 1];
            dst[u + 2] = src[o + 2];
            k += 1;
        }
    }

    /// The cell holding clamped cell coordinates (ix, iy, iz).
    pub fn cell_of(&self, ix: i32, iy: i32, iz: i32) -> (c: usize)
        requires
            self.wf(),
        ensures
            c == linear(
                self.size_x(),
                self.size_y(),
                clamp_coord(ix as int, self.size_x()),
                clamp_coord(iy as int, self.size_y()),
                clamp_coord(iz as int, self.size_z()),
            ),
            c < self.num_cells(),
            0 <= ix < self.size_x() ==> coord_x(self.size_x(), self.size_y(), c as int) == ix,
            0 <= iy < self.size_y() ==> coord_y(self.size_x(), self.size_y(), c as int) == iy,
            0 <= iz < self.size_z() ==> coord_z(self.size_x(), self.size_y(), c as int) == iz,
            ix < 0 ==> coord_x(self.size_x(), self.size_y(), c as int) == 0,
            iy < 0 ==> coord_y(self.size_x(), self.size_y(), c as int) == 0,
            iz < 0 ==> coord_z(self.size_x(), self.size_y(), c as int) == 0,
            ix >= self.size_x() ==> coord_x(self.size_x(), self.size_y(), c as int) == self.size_x()
                - 1,
            iy >= self.size_y() ==> coord_y(self.size_x(), self.size_y(), c as int) == self.size_y()
                - 1,
            iz >= self.size_z() ==> coord_z(self.size_x(), self.size_y(), c as int) == self.size_z()
                - 1,
    {
        proof {
            lemma_dims_bounded(self.gx as int, self.gy as int, self.gz as int);
        }
        let gx = self.gx as i32;
        let gy = self.gy as i32;
        let gz = self.gz as i32;
        let x: i32 = if ix < 0 {
            0
        } else if ix > gx - 1 {
            gx - 1
        } else {
            ix
        };
        let y: i32 = if iy < 0 {
            0
        } else if iy > gy - 1 {
            gy - 1
        } else {
            iy
        };
        let z: i32 = if iz < 0 {
            0
        } else if iz > gz - 1 {
            gz - 1
        } else {
            iz
        };
        proof {
            lemma_decode(
                self.gx as int,
                self.gy as int,
                self.gz as int,
                x as int,
                y as int,
                z as int,
            );
            assert(z * (self.gx * self.gy) <= self.gx * self.gy * self.gz) by (nonlinear_arith)
                requires
                    z < self.gz,
            ;
            assert(y * self.gx <= self.gx * self.gy) by (nonlinear_arith)
                requires
                    y < self.gy,
            ;
        }
        (x as usize) + (y as usize) * self.gx + (z as usize) * (self.gx * self.gy)
    }
}

/// A vector of `n` zeros.
fn zeros(n: usize) -> (v: Vec<usize>)
    ensures
        v@.len() == n,
        forall|i: int| 0 <= i < n ==> v@[i] == 0,
{
    let mut v: Vec<usize> = Vec::new();
    let mut i: usize = 0;
    while i < n
        invariant
            i <= n,
            v@.len() == i,
            forall|j: int| 0 <= j < i ==> v@[j] == 0,
        decreases n - i,
    {
        v.push(0);
        i += 1;
    }
    v
}

/// Pushing an element that is not yet present keeps a sequence free of duplicates.
proof fn lemma_push_fresh<A>(s: Seq<A>, v: A)
    requires
        s.no_duplicates(),
        !s.contains(v),
    ensures
        s.push(v).no_duplicates(),
        forall|x: A| #[trigger] s.push(v).contains(x) <==> s.contains(x) || x == v,
{
    assert forall|x: A| #[trigger] s.push(v).contains(x) <==> s.contains(x) || x == v by {
        lemma_seq_contains_after_push(s, v, x);
    }
    assert forall|i: int, j: int|
        0 <= i < s.push(v).len() && 0 <= j < s.push(v).len() && i != j implies s.push(v)[i]
        != s.push(v)[j] by {
        if i < s.len() && j < s.len() {
        } else if i < s.len() {
            assert(s.contains(s[i]));
        } else {
            assert(s.contains(s[j]));
        }
    }
}

} // verus!
