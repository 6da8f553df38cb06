//! What the constants of the kernels stand for.

use vstd::arithmetic::power2::lemma2_to64;
use vstd::arithmetic::power2::lemma2_to64_rest;
use vstd::arithmetic::power2::lemma_pow2_adds;
use vstd::arithmetic::power2::pow2;
use vstd::prelude::*;

use crate::float::F32;
use crate::float::F64;
use crate::gpu::rows::DRAWS32;
use crate::gpu::rows::HALF_NORMAL_MEAN32;
use crate::gpu::rows::LAST_BELOW_ONE32;
use crate::gpu::setup::LOWER_TAIL64;
use crate::gpu::setup::UPPER_TAIL64;
use crate::gpu::split::LEAST_GAIN32;
use crate::gpu::split::NO_GAIN32;
use crate::reals::size_of;
use crate::reals::twos;

verus! {

/// A split that is ruled out has a gain of about minus ten to the thirtieth, and a gain counts from
/// about a tenth of that on; none that counts can be taken for one that is ruled out.
pub proof fn lemma_gain_marks()
    ensures
        (F32 { bits: NO_GAIN32 }).finite(),
        (F32 { bits: LEAST_GAIN32 }).finite(),
        ({
            let none = (F32 { bits: NO_GAIN32 }).amount();
            let least = (F32 { bits: LEAST_GAIN32 }).amount();
            let unit = 100000000000000000000000int as real;
            &&& -10000001real * unit <= none <= -9999999real * unit
            &&& -1000001real * unit <= least <= -999999real * unit
            &&& none < least
        }),
{
    lemma2_to64();
    lemma2_to64_rest();
    lemma_pow2_adds(38, 38);
    lemma_pow2_adds(36, 37);
    assert(pow2(76) == 0x1000_0000_0000_0000_0000);
    assert(pow2(73) == 0x200_0000_0000_0000_0000);
    let a = (F32 { bits: NO_GAIN32 }).magnitude();
    assert(a / 0x80_0000 == 226 && a % 0x80_0000 == 0x49_F2CA);
    assert(twos(76) == (0x1000_0000_0000_0000_0000int as real));
    assert(size_of(a, 0x80_0000, -149) == (0xC9_F2CAint as real) * twos(76));
    let b = (F32 { bits: LEAST_GAIN32 }).magnitude();
    assert(b / 0x80_0000 == 223 && b % 0x80_0000 == 0x21_8F08);
    assert(twos(73) == (0x200_0000_0000_0000_0000int as real));
    assert(size_of(b, 0x80_0000, -149) == (0xA1_8F08int as real) * twos(73));
}

/// The mean size of a standard normal variable, to seven places; the largest draw has 24 bits; the last share is one less its last place; the tails of
/// the normal distribution are as long as one another.
pub proof fn lemma_draw_marks()
    ensures
        (F32 { bits: HALF_NORMAL_MEAN32 }).finite(),
        ({
            let c = (F32 { bits: HALF_NORMAL_MEAN32 }).amount();
            &&& 7978845real <= c * 10000000real <= 7978846real
        }),
        (F32 { bits: DRAWS32 }).means(0xFF_FFFFint as real),
        (F32 { bits: LAST_BELOW_ONE32 }).means(1real - 1real / (0x100_0000int as real)),
        (F64 { bits: LOWER_TAIL64 }).finite(),
        (F64 { bits: UPPER_TAIL64 }).finite(),
        ({
            let low = (F64 { bits: LOWER_TAIL64 }).amount();
            let high = (F64 { bits: UPPER_TAIL64 }).amount();
            &&& -1real <= (low * 100000real - 2425real) * 10000000000real <= 1real
            &&& -1real <= (low + high - 1real) * 10000000000000000real <= 1real
        }),
{
    lemma2_to64();
    lemma2_to64_rest();
    let a = (F32 { bits: HALF_NORMAL_MEAN32 }).magnitude();
    assert(a / 0x80_0000 == 126 && a % 0x80_0000 == 0x4C_422A);
    assert(pow2(24) == 0x100_0000);
    assert(twos(-24) == 1real / (0x100_0000int as real));
    assert(size_of(a, 0x80_0000, -149) == (0xCC_422Aint as real) * twos(-24));
    let b = (F32 { bits: DRAWS32 }).magnitude();
    assert(b / 0x80_0000 == 150 && b % 0x80_0000 == 0x7F_FFFF);
    assert(twos(0) == 1real);
    assert(size_of(b, 0x80_0000, -149) == (0xFF_FFFFint as real) * twos(0));
    let c = (F32 { bits: LAST_BELOW_ONE32 }).magnitude();
    assert(c / 0x80_0000 == 126 && c % 0x80_0000 == 0x7F_FFFF);
    assert(size_of(c, 0x80_0000, -149) == (0xFF_FFFFint as real) * twos(-24));
    let field = 0x10_0000_0000_0000int;
    let d = (F64 { bits: LOWER_TAIL64 }).magnitude();
    assert(d / field == 1017 && d % field == 0x8_D4FD_F3B6_45A2);
    assert(pow2(58) == 0x400_0000_0000_0000);
    assert(twos(-58) == 1real / (0x400_0000_0000_0000int as real));
    assert(size_of(d, field, -1074) == (0x18_D4FD_F3B6_45A2int as real) * twos(-58));
    let e = (F64 { bits: UPPER_TAIL64 }).magnitude();
    assert(e / field == 1022 && e % field == 0xF_3958_1062_4DD3);
    assert(pow2(53) == 0x20_0000_0000_0000);
    assert(twos(-53) == 1real / (0x20_0000_0000_0000int as real));
    assert(size_of(e, field, -1074) == (0x1F_3958_1062_4DD3int as real) * twos(-53));
}

} // verus!
