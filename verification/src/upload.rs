use vstd::prelude::*;

verus! {

/// The interleaved vertex buffer for `n` particles, seven values per particle: for particle `i`, entries `7i .. 7i + 3`
/// are its position, `7i + 3 .. 7i + 6` its velocity, and `7i + 6` its palette value.
pub open spec fn interleaved<T>(pos: Seq<T>, vel: Seq<T>, extra: Seq<T>, n: int) -> Seq<T> {
    Seq::new(
        (7 * n) as nat,
        |u: int|
            {
                let i = u / 7;
                let j = u % 7;
                if j < 3 {
                    pos[3 * i + j]
                } else if j < 6 {
                    vel[3 * i + j - 3]
                } else {
                    extra[i]
                }
            },
    )
}

/// Writes the interleaved vertex data of `n` particles into `up`, which already holds
/// `7 * n` entries.
pub fn interleave<T: Copy>(up: &mut Vec<T>, pos: &Vec<T>, vel: &Vec<T>, extra: &Vec<T>, n: usize)
    requires
        old(up)@.len() == 7 * n,
        pos@.len() >= 3 * n,
        vel@.len() >= 3 * n,
        extra@.len() >= n,
    ensures
        final(up)@ == interleaved(pos@, vel@, extra@, n as int),
        final(up)@.len() == 7 * n,
        forall|i: int| 0 <= i < n ==> final(up)@[7 * i + 6] == #[trigger] extra@[i],
{
    let total = up.len();
    let mut i: usize = 0;
    while i < n
        invariant
            total == 7 * n,
            up@.len() == 7 * n,
            pos@.len() >= 3 * n,
            vel@.len() >= 3 * n,
            extra@.len() >= n,
            i <= n,
            forall|u: int|
                0 <= u < 7 * i ==> #[trigger] up@[u] == interleaved(pos@, vel@, extra@, n as int)[u],
        decreases n - i,
    {
        let o = i * 3;
        let u = i * 7;
        up[u] = pos[o];
        up[u + 1] = pos[o + 1];
        up[u + 2] = pos[o + 2];
        up[u + 3] = vel[o];
        up[u + 4] = vel[o + 1];
        up[u + 5] = vel[o + 2];
        up[u + 6] = extra[i];
        i += 1;
    }
    proof {
        assert(up@ =~= interleaved(pos@, vel@, extra@, n as int));
        assert forall|k: int| 0 <= k < n implies up@[7 * k + 6] == #[trigger] extra@[k] by {
            lemma_interleaved_particle(pos@, vel@, extra@, n as int, k);
        }
    }
}

/// In the interleaved buffer particle `i` owns entries `7i .. 7i + 7`: its own position, its
/// own velocity, then its own palette value.
pub proof fn lemma_interleaved_particle<T>(
    pos: Seq<T>,
    vel: Seq<T>,
    extra: Seq<T>,
    n: int,
    i: int,
)
    requires
        0 <= i < n,
    ensures
        interleaved(pos, vel, extra, n).len() == 7 * n,
        interleaved(pos, vel, extra, n)[7 * i] == pos[3 * i],
        interleaved(pos, vel, extra, n)[7 * i + 1] == pos[3 * i + 1],
        interleaved(pos, vel, extra, n)[7 * i + 2] == pos[3 * i + 2],
        interleaved(pos, vel, extra, n)[7 * i + 3] == vel[3 * i],
        interleaved(pos, vel, extra, n)[7 * i + 4] == vel[3 * i + 1],
        interleaved(pos, vel, extra, n)[7 * i + 5] == vel[3 * i + 2],
        interleaved(pos, vel, extra, n)[7 * i + 6] == extra[i],
{
    assert(7 * i + 6 < 7 * n);
    assert((7 * i) / 7 == i && (7 * i) % 7 == 0);
    assert((7 * i + 1) / 7 == i && (7 * i + 1) % 7 == 1);
    assert((7 * i + 2) / 7 == i && (7 * i + 2) % 7 == 2);
    assert((7 * i + 3) / 7 == i && (7 * i + 3) % 7 == 3);
    assert((7 * i + 4) / 7 == i && (7 * i + 4) % 7 == 4);
    assert((7 * i + 5) / 7 == i && (7 * i + 5) % 7 == 5);
    assert((7 * i + 6) / 7 == i && (7 * i + 6) % 7 == 6);
}

} // verus!
