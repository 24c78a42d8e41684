use vstd::prelude::*;

verus! {

/// Number of parametric shapes the morph mode cycles through.
pub const SHAPE_COUNT: usize = 5;

/// The parametric point clouds of the morph mode, in cycling order.
#[derive(Clone, Copy, Debug, PartialEq, Eq, Structural)]
pub enum ShapeKind {
    /// Fibonacci sphere ("star trails").
    Sphere,
    /// (2, 3) torus knot.
    TorusKnot,
    /// Four-armed spiral galaxy.
    Galaxy,
    /// DNA double helix with rungs.
    Helix,
    /// Lorenz attractor trajectories.
    Lorenz,
}

pub open spec fn kind_at(i: int) -> ShapeKind {
    if i == 0 {
        ShapeKind::Sphere
    } else if i == 1 {
        ShapeKind::TorusKnot
    } else if i == 2 {
        ShapeKind::Galaxy
    } else if i == 3 {
        ShapeKind::Helix
    } else {
        ShapeKind::Lorenz
    }
}

/// Shape indices wrap around: shape `idx` is shape `idx % SHAPE_COUNT`.
pub fn shape_index(idx: usize) -> (r: usize)
    ensures
        r == idx % SHAPE_COUNT,
        r < SHAPE_COUNT,
{
    idx % SHAPE_COUNT
}

/// Which generator builds shape `idx`.
pub fn shape_kind(idx: usize) -> (k: ShapeKind)
    ensures
        k == kind_at((idx % SHAPE_COUNT) as int),
{
    match idx % SHAPE_COUNT {
        0 => ShapeKind::Sphere,
        1 => ShapeKind::TorusKnot,
        2 => ShapeKind::Galaxy,
        3 => ShapeKind::Helix,
        _ => ShapeKind::Lorenz,
    }
}

/// The shape that follows shape `current` (itself an index below `SHAPE_COUNT`).
pub fn next_shape_index(current: usize) -> (r: usize)
    requires
        current < SHAPE_COUNT,
    ensures
        r == (current + 1) % (SHAPE_COUNT as int),
        r < SHAPE_COUNT,
{
    shape_index(current + 1)
}

pub open spec fn next_index(i: int) -> int {
    (i + 1) % (SHAPE_COUNT as int)
}

/// Stepping to the next shape visits every shape once and comes back after
/// `SHAPE_COUNT` steps.
pub proof fn lemma_shape_cycle(i: int)
    requires
        0 <= i < SHAPE_COUNT,
    ensures
        next_index(next_index(next_index(next_index(next_index(i))))) == i,
        next_index(i) != i,
        kind_at(next_index(i)) != kind_at(i),
{
}

/// The shape indices `0 .. SHAPE_COUNT` name the five generators one to one, and shape
/// indices repeat with period `SHAPE_COUNT`.
pub proof fn lemma_shape_kinds_one_to_one(i: int, j: int)
    ensures
        0 <= i < SHAPE_COUNT && 0 <= j < SHAPE_COUNT && i != j ==> kind_at(i) != kind_at(j),
        i >= 0 ==> kind_at((i + SHAPE_COUNT as int) % (SHAPE_COUNT as int)) == kind_at(
            i % (SHAPE_COUNT as int),
        ),
        exists|k: int| 0 <= k < SHAPE_COUNT && kind_at(k) == ShapeKind::Sphere,
        exists|k: int| 0 <= k < SHAPE_COUNT && kind_at(k) == ShapeKind::TorusKnot,
        exists|k: int| 0 <= k < SHAPE_COUNT && kind_at(k) == ShapeKind::Galaxy,
        exists|k: int| 0 <= k < SHAPE_COUNT && kind_at(k) == ShapeKind::Helix,
        exists|k: int| 0 <= k < SHAPE_COUNT && kind_at(k) == ShapeKind::Lorenz,
{
    assert(kind_at(0) == ShapeKind::Sphere);
    assert(kind_at(1) == ShapeKind::TorusKnot);
    assert(kind_at(2) == ShapeKind::Galaxy);
    assert(kind_at(3) == ShapeKind::Helix);
    assert(kind_at(4) == ShapeKind::Lorenz);
}

} // verus!
