use vstd::prelude::*;
use vstd::arithmetic::div_mod::{lemma_div_denominator, lemma_fundamental_div_mod_converse};

verus! {

pub open spec fn at_least_one_usize(v: usize) -> int {
    if v < 1 {
        1
    } else {
        v as int
    }
}

/// Site `s` is the lattice position of particle `i` in a column `ny` sites high and `nz` deep,
/// filled with z fastest, then y, then x.
pub open spec fn lattice_site(ny: int, nz: int, i: int, s: (usize, usize, usize)) -> bool {
    &&& s.1 < ny
    &&& s.2 < nz
    &&& s.0 * (ny * nz) + s.1 * nz + s.2 == i
}

/// Number of lattice columns (x layers) the dam block needs for `n` particles.
pub open spec fn lattice_layers(n: int, ny: int, nz: int) -> int {
    (n + ny * nz - 1) / (ny * nz)
}

/// Lattice sites of the dam-break block for `n` particles: layer by layer in x, each layer
/// `ny` by `nz` sites (each at least one), every particle on its own site.
pub fn dam_lattice(n: usize, ny: usize, nz: usize) -> (sites: Vec<(usize, usize, usize)>)
    requires
        n + at_least_one_usize(ny) * at_least_one_usize(nz) <= usize::MAX,
    ensures
        sites@.len() == n,
        forall|i: int|
            0 <= i < n ==> lattice_site(
                at_least_one_usize(ny),
                at_least_one_usize(nz),
                i,
                #[trigger] sites@[i],
            ),
        forall|i: int|
            0 <= i < n ==> (#[trigger] sites@[i]).0 < lattice_layers(
                n as int,
                at_least_one_usize(ny),
                at_least_one_usize(nz),
            ),
        forall|i: int, j: int| 0 <= i < j < n ==> sites@[i] != sites@[j],
        ny >= 1 && nz >= 1 ==> forall|i: int|
            0 <= i < n ==> {
                &&& (#[trigger] sites@[i]).1 < ny
                &&& sites@[i].2 < nz
                &&& sites@[i].0 * (ny * nz) + sites@[i].1 * nz + sites@[i].2 == i
            },
        ny == 0 ==> forall|i: int| 0 <= i < n ==> (#[trigger] sites@[i]).1 == 0,
        nz == 0 ==> forall|i: int| 0 <= i < n ==> (#[trigger] sites@[i]).2 == 0,
{
    let ny: usize = if ny < 1 { 1 } else { ny };
    let nz: usize = if nz < 1 { 1 } else { nz };
    proof {
        assert(ny <= ny * nz && nz <= ny * nz) by (nonlinear_arith)
            requires
                ny >= 1,
                nz >= 1,
        ;
    }
    let nyz = ny * nz;
    let nx = (n + nyz - 1) / nyz;
    let ghost layers = lattice_layers(n as int, ny as int, nz as int);
    let mut sites: Vec<(usize, usize, usize)> = Vec::new();
    let mut i: usize = 0;
    let mut ix: usize = 0;
    while ix < nx && i < n
        invariant
            ny >= 1,
            nz >= 1,
            nyz == ny * nz,
            nx == layers,
            nx == (n + nyz - 1) / (nyz as int),
            n + nyz <= usize::MAX,
            i <= n,
            ix <= nx,
            i == n || i == ix * nyz,
            sites@.len() == i,
            forall|j: int|
                0 <= j < i ==> lattice_site(ny as int, nz as int, j, #[trigger] sites@[j]) && sites@[j].0
                    < nx,
        decreases nx - ix,
    {
        proof {
            assert(ix * nyz + nyz <= usize::MAX) by (nonlinear_arith)
                requires
                    i == ix * nyz,
                    i < n,
                    n + nyz <= usize::MAX,
            ;
        }
        let mut iy: usize = 0;
        while iy < ny && i < n
            invariant
                ny >= 1,
                nz >= 1,
                nyz == ny * nz,
                n + nyz <= usize::MAX,
                ix < nx,
                ix * nyz + nyz <= usize::MAX,
                i <= n,
                iy <= ny,
                i == n || i == ix * nyz + iy * nz,
                sites@.len() == i,
                forall|j: int|
                    0 <= j < i ==> lattice_site(ny as int, nz as int, j, #[trigger] sites@[j])
                        && sites@[j].0 < nx,
            decreases ny - iy,
        {
            let mut iz: usize = 0;
            while iz < nz && i < n
                invariant
                    ny >= 1,
                    nz >= 1,
                    nyz == ny * nz,
                    ix < nx,
                    iy < ny,
                    i <= n,
                    iz <= nz,
                    i == n || i == ix * nyz + iy * nz + iz,
                    sites@.len() == i,
                    forall|j: int|
                        0 <= j < i ==> lattice_site(ny as int, nz as int, j, #[trigger] sites@[j])
                            && sites@[j].0 < nx,
                decreases nz - iz,
            {
                sites.push((ix, iy, iz));
                i += 1;
                iz += 1;
            }
            proof {
                if i < n {
                    assert(ix * nyz + (iy + 1) * nz == ix * nyz + iy * nz + nz) by (nonlinear_arith);
                }
            }
            iy += 1;
        }
        proof {
            if i < n {
                assert((ix + 1) * nyz == ix * nyz + ny * nz) by (nonlinear_arith)
                    requires
                        nyz == ny * nz,
                ;
            }
        }
        ix += 1;
    }
    proof {
        if i < n {
            assert(ix == nx);
            assert(nx * nyz >= n) by (nonlinear_arith)
                requires
                    nx == (n + nyz - 1) / (nyz as int),
                    nyz >= 1,
            ;
        }
        assert forall|a: int, b: int| 0 <= a < b < n implies sites@[a] != sites@[b] by {
            assert(lattice_site(ny as int, nz as int, a, sites@[a]));
            assert(lattice_site(ny as int, nz as int, b, sites@[b]));
        }
    }
    sites
}

/// Raising a zero side to one keeps every side from one up unchanged.
pub proof fn lemma_at_least_one_usize_is_max(v: usize)
    ensures
        at_least_one_usize(v) >= 1,
        v >= 1 ==> at_least_one_usize(v) == v,
        v == 0 ==> at_least_one_usize(v) == 1,
{
}

/// A lattice site is the quotient-and-remainder decomposition of the particle index: layer
/// `i / (ny * nz)`, row `(i / nz) % ny`, depth `i % nz`.
pub proof fn lemma_lattice_site_is_div_mod(ny: int, nz: int, i: int, s: (usize, usize, usize))
    requires
        ny >= 1,
        nz >= 1,
        lattice_site(ny, nz, i, s),
    ensures
        s.0 == i / (ny * nz),
        s.1 == (i / nz) % ny,
        s.2 == i % nz,
{
    let x = s.0 as int;
    let y = s.1 as int;
    let z = s.2 as int;
    assert(i == (y + x * ny) * nz + z) by (nonlinear_arith)
        requires
            x * (ny * nz) + y * nz + z == i,
    ;
    lemma_fundamental_div_mod_converse(i, nz, y + x * ny, z);
    lemma_fundamental_div_mod_converse(y + x * ny, ny, x, y);
    assert(i >= 0) by (nonlinear_arith)
        requires
            i == (y + x * ny) * nz + z,
            x >= 0,
            y >= 0,
            z >= 0,
            ny >= 1,
            nz >= 1,
    ;
    lemma_div_denominator(i, nz, ny);
    assert(nz * ny == ny * nz) by (nonlinear_arith);
}

} // verus!
