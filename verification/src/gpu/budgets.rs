//! How much of a device a fit takes, and how its trees differ.

use vstd::arithmetic::div_mod::lemma_fundamental_div_mod;
use vstd::arithmetic::div_mod::lemma_fundamental_div_mod_converse;
use vstd::prelude::*;

use crate::gpu::setup::directions;
use crate::gpu::setup::replicas_within;
use crate::gpu::setup::seed_of;
use crate::gpu::setup::tiles_for;
use crate::gpu::setup::REPLICA_BUDGET;

verus! {

/// As many copies are held as are asked for, or as many as the budget has room for: with one copy
/// more there would be more than were asked for, or they would not fit.
pub proof fn lemma_most_replicas(asked: int, size: int)
    requires
        size > 0,
    ensures
        ({
            let r = replicas_within(asked, size);
            &&& r == 1 || r <= asked
            &&& r == 1 || r * size * 8 <= 6 * 1024 * 1024 * 1024
            &&& r + 1 > asked || (r + 1) * size * 8 > 6 * 1024 * 1024 * 1024
        }),
{
    let r = replicas_within(asked, size);
    let budget = REPLICA_BUDGET as int;
    lemma_fundamental_div_mod(budget, size);
    let most = budget / size;
    assert(size * most == most * size) by (nonlinear_arith);
    if r > 1 {
        assert(r * size <= most * size) by (nonlinear_arith)
            requires
                r <= most,
                size > 0,
        ;
    }
    if r + 1 <= asked {
        assert(r >= most);
        assert((r + 1) * size >= most * size + size) by (nonlinear_arith)
            requires
                r >= most,
                size > 0,
        ;
    }
}

/// The tiles are as few as hold all rows with 8192 rows each, but no more than 4096.
pub proof fn lemma_tiles(n: int)
    requires
        n > 0,
    ensures
        1 <= tiles_for(n) <= 4096,
        n <= tiles_for(n) * 8192 || tiles_for(n) == 4096,
        (tiles_for(n) - 1) * 8192 < n,
{
}

/// What is left of a number between nothing and twice the modulus, and a multiple of it.
proof fn lemma_wrapped(q: int, v: int)
    requires
        0 <= v < 2 * 0x1_0000_0000,
    ensures
        (0x1_0000_0000 * q + v) % 0x1_0000_0000 == if v < 0x1_0000_0000 {
            v
        } else {
            v - 0x1_0000_0000
        },
{
    let m = 0x1_0000_0000int;
    if v < m {
        lemma_fundamental_div_mod_converse(m * q + v, m, q, v);
    } else {
        lemma_fundamental_div_mod_converse(m * q + v, m, q + 1, v - m);
    }
}

/// The seeds of the trees are in arithmetic progression.
pub proof fn lemma_seeds(tree: u32)
    requires
        tree < u32::MAX,
    ensures
        seed_of(0) == 2_654_435_769,
        seed_of((tree + 1) as u32) as int == (seed_of(tree) + 2_654_435_761) % 0x1_0000_0000,
{
    let m = 0x1_0000_0000int;
    let x = tree * 2_654_435_761;
    let a = x % m;
    lemma_fundamental_div_mod(x, m);
    assert((tree + 1) * 2_654_435_761 == m * (x / m) + (a + 2_654_435_761));
    lemma_wrapped(x / m, a + 2_654_435_761);
    lemma_wrapped(0, seed_of(tree) + 2_654_435_761);
    assert(tree.wrapping_mul(2_654_435_761) == a);
    assert(((tree + 1) as u32).wrapping_mul(2_654_435_761) == (m * (x / m) + (a + 2_654_435_761))
        % m);
}

/// A feature has the direction that is given for it; the others have none.
pub proof fn lemma_directions(given: Seq<i32>, nf: nat, f: int)
    requires
        0 <= f < nf,
    ensures
        directions(given, nf).len() == nf,
        f < given.len() ==> directions(given, nf)[f] == given[f],
        f >= given.len() ==> directions(given, nf)[f] == 0,
{
}

} // verus!
