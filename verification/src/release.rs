//! How long a released voice goes on sounding.
use crate::binary64;
use crate::binary64::{EXPONENT_UNIT, ONE};
use crate::oscillator::{VoiceState, RELEASE_RATE};
use vstd::arithmetic::power2::*;
use vstd::prelude::*;

verus! {

/// The gain of a released voice one sample later.
pub open spec fn fallen(gain: u64) -> u64 {
    if gain <= RELEASE_RATE {
        0
    } else {
        binary64::difference_of(gain, RELEASE_RATE)
    }
}

/// The gain of a released voice `n` samples later.
pub open spec fn fallen_by(gain: u64, n: nat) -> u64
    decreases n,
{
    if n == 0 {
        gain
    } else {
        fallen(fallen_by(gain, (n - 1) as nat))
    }
}

/// The significand of the release rate. Its exponent is `RATE_EXPONENT`, and
/// every gain above it is a whole multiple of the same power of two.
const RATE_SIGNIFICAND: u64 = 0x10_624D_D2F1_A9FC;

const RATE_EXPONENT: u64 = 1012;

/// Falling by `a` and then by `b` samples is falling by `a + b` samples.
proof fn lemma_fallen_adds(gain: u64, a: nat, b: nat)
    ensures
        fallen_by(fallen_by(gain, a), b) == fallen_by(gain, a + b),
    decreases b,
{
    if b > 0 {
        lemma_fallen_adds(gain, a, (b - 1) as nat);
    }
}

/// One sample of release, from a gain counted in `u` units of the release rate
/// to one counted in `w` units.
proof fn lemma_step(from: u64, to: u64, j: nat, u: nat, i: nat, w: nat)
    requires
        j <= 10,
        u == pow2(j),
        i <= j,
        w == pow2(i),
        RELEASE_RATE < from <= ONE,
        binary64::exponent(from) == RATE_EXPONENT + j,
        binary64::exponent(to) == RATE_EXPONENT + i,
        binary64::significand(to) > EXPONENT_UNIT,
        ({
            let error = binary64::significand(to) * w - (binary64::significand(from) * u
                - RATE_SIGNIFICAND);
            ||| -w < 2 * error < w
            ||| (2 * error == w || 2 * error == -w) && to % 2 == 0
        }),
    ensures
        fallen(from) == to,
{
    let p = pow2(RATE_EXPONENT as nat);
    let m = binary64::significand(from);
    let n = binary64::significand(to);
    let below = (to - 1) as u64;
    lemma_pow2_pos(RATE_EXPONENT as nat);
    lemma_pow2_adds(j, RATE_EXPONENT as nat);
    lemma_pow2_adds(i, RATE_EXPONENT as nat);
    assert(binary64::scaled(RELEASE_RATE) == RATE_SIGNIFICAND * p);
    assert(binary64::exponent(below) == binary64::exponent(to));
    binary64::patterns_keep_order(RELEASE_RATE, from);
    let num = (binary64::scaled(from) - binary64::scaled(RELEASE_RATE)) as nat;
    let error = n * w - (m * u - RATE_SIGNIFICAND);
    assert(n * (w * p) - (m * (u * p) - RATE_SIGNIFICAND * p) == error * p) by (nonlinear_arith)
        requires
            error == n * w - (m * u - RATE_SIGNIFICAND),
    ;
    assert(binary64::scaled(to) * 1 - num == error * p);
    assert(2 * (error * p) == (2 * error) * p) by (nonlinear_arith);
    assert((-w) * p == -(w * p)) by (nonlinear_arith);
    let twice = 2 * error;
    if -w < twice < w {
        assert((-w) * p < twice * p < w * p) by (nonlinear_arith)
            requires
                -w < twice < w,
                p > 0,
        ;
    }
    binary64::rounding_within_half_gap(num, 1, to);
}

/// A run of `n` samples over which the exponent of the gain stays the same and
/// the pattern falls by `d` each time.
proof fn lemma_run(from: u64, n: nat, d: u64, j: nat, u: nat)
    requires
        1 <= j <= 9,
        u == pow2(j),
        ({
            let low = (RATE_EXPONENT + 1 + j) * EXPONENT_UNIT;
            &&& low < from - n * d
            &&& from < low + EXPONENT_UNIT
        }),
        ({
            let error = RATE_SIGNIFICAND - d * u;
            ||| -u < 2 * error < u
            ||| (2 * error == u || 2 * error == -u) && from % 2 == 0 && d % 2 == 0
        }),
    ensures
        fallen_by(from, n) == from - n * d,
    decreases n,
{
    let low = (RATE_EXPONENT + 1 + j) * EXPONENT_UNIT;
    if n > 0 {
        let m = (n - 1) as nat;
        assert(n * d == m * d + d) by (nonlinear_arith)
            requires
                n == m + 1,
        ;
        lemma_run(from, m, d, j, u);
        let a = fallen_by(from, m);
        let b = (a - d) as u64;
        let x = binary64::significand(a);
        let y = binary64::significand(b);
        assert(low == (1013 + j) * 0x10_0000_0000_0000);
        assert(binary64::exponent(a) == RATE_EXPONENT + j && x == a - low + EXPONENT_UNIT);
        assert(binary64::exponent(b) == RATE_EXPONENT + j && y == b - low + EXPONENT_UNIT);
        assert(y * u - (x * u - RATE_SIGNIFICAND) == RATE_SIGNIFICAND - d * u) by (nonlinear_arith)
            requires
                y == x - d,
        ;
        if from % 2 == 0 && d % 2 == 0 {
            let half = d / 2;
            assert(m * d == 2 * (m * half)) by (nonlinear_arith)
                requires
                    d == 2 * half,
            ;
        }
        lemma_step(a, b, j, u, j, u);
    } else {
        assert(n * d == 0) by (nonlinear_arith)
            requires
                n == 0,
        ;
    }
}

/// The gain after all but the last sample of the release.
proof fn lemma_fall_from_one()
    ensures
        fallen_by(ONE, 999) == 0x3F50_624D_D2F1_9A1C,
{
    lemma2_to64();
    assert(fallen_by(ONE, 0) == ONE);
    lemma_step(0x3FF0_0000_0000_0000, 0x3FEF_F7CE_D916_872B, 10, 1024, 9, 512);
    assert(fallen_by(ONE, 1) == 0x3FEF_F7CE_D916_872B);
    lemma_run(0x3FEF_F7CE_D916_872B, 498, 0x831_26E9_78D5, 9, 512);
    lemma_fallen_adds(ONE, 1, 498);
    assert(fallen_by(ONE, 499) == 0x3FE0_0831_26E9_78D1);
    lemma_step(0x3FE0_0831_26E9_78D1, 0x3FDF_FFFF_FFFF_FFF8, 9, 512, 8, 256);
    assert(fallen_by(ONE, 500) == 0x3FDF_FFFF_FFFF_FFF8);
    lemma_run(0x3FDF_FFFF_FFFF_FFF8, 249, 0x1062_4DD2_F1AA, 8, 256);
    lemma_fallen_adds(ONE, 500, 249);
    assert(fallen_by(ONE, 749) == 0x3FD0_1062_4DD2_F19E);
    lemma_step(0x3FD0_1062_4DD2_F19E, 0x3FCF_FFFF_FFFF_FFE8, 8, 256, 7, 128);
    assert(fallen_by(ONE, 750) == 0x3FCF_FFFF_FFFF_FFE8);
    lemma_run(0x3FCF_FFFF_FFFF_FFE8, 124, 0x20C4_9BA5_E354, 7, 128);
    lemma_fallen_adds(ONE, 750, 124);
    assert(fallen_by(ONE, 874) == 0x3FC0_20C4_9BA5_E338);
    lemma_step(0x3FC0_20C4_9BA5_E338, 0x3FBF_FFFF_FFFF_FFC8, 7, 128, 6, 64);
    assert(fallen_by(ONE, 875) == 0x3FBF_FFFF_FFFF_FFC8);
    lemma_run(0x3FBF_FFFF_FFFF_FFC8, 62, 0x4189_374B_C6A8, 6, 64);
    lemma_fallen_adds(ONE, 875, 62);
    assert(fallen_by(ONE, 937) == 0x3FB0_20C4_9BA5_E318);
    lemma_step(0x3FB0_20C4_9BA5_E318, 0x3FAF_BE76_C8B4_38E0, 6, 64, 5, 32);
    assert(fallen_by(ONE, 938) == 0x3FAF_BE76_C8B4_38E0);
    lemma_run(0x3FAF_BE76_C8B4_38E0, 30, 0x8312_6E97_8D50, 5, 32);
    lemma_fallen_adds(ONE, 938, 30);
    assert(fallen_by(ONE, 968) == 0x3FA0_624D_D2F1_A980);
    lemma_step(0x3FA0_624D_D2F1_A980, 0x3F9F_BE76_C8B4_3860, 5, 32, 4, 16);
    assert(fallen_by(ONE, 969) == 0x3F9F_BE76_C8B4_3860);
    lemma_run(0x3F9F_BE76_C8B4_3860, 15, 0x1_0624_DD2F_1AA0, 4, 16);
    lemma_fallen_adds(ONE, 969, 15);
    assert(fallen_by(ONE, 984) == 0x3F90_624D_D2F1_A900);
    lemma_step(0x3F90_624D_D2F1_A900, 0x3F8E_B851_EB85_1CC0, 4, 16, 3, 8);
    assert(fallen_by(ONE, 985) == 0x3F8E_B851_EB85_1CC0);
    lemma_run(0x3F8E_B851_EB85_1CC0, 7, 0x2_0C49_BA5E_3540, 3, 8);
    lemma_fallen_adds(ONE, 985, 7);
    assert(fallen_by(ONE, 992) == 0x3F80_624D_D2F1_A800);
    lemma_step(0x3F80_624D_D2F1_A800, 0x3F7C_AC08_3126_E581, 3, 8, 2, 4);
    assert(fallen_by(ONE, 993) == 0x3F7C_AC08_3126_E581);
    lemma_run(0x3F7C_AC08_3126_E581, 3, 0x4_1893_74BC_6A7F, 2, 4);
    lemma_fallen_adds(ONE, 993, 3);
    assert(fallen_by(ONE, 996) == 0x3F70_624D_D2F1_A604);
    lemma_step(0x3F70_624D_D2F1_A604, 0x3F68_9374_BC6A_770A, 2, 4, 1, 2);
    assert(fallen_by(ONE, 997) == 0x3F68_9374_BC6A_770A);
    lemma_run(0x3F68_9374_BC6A_770A, 1, 0x8_3126_E978_D4FE, 1, 2);
    lemma_fallen_adds(ONE, 997, 1);
    assert(fallen_by(ONE, 998) == 0x3F60_624D_D2F1_A20C);
    lemma_step(0x3F60_624D_D2F1_A20C, 0x3F50_624D_D2F1_9A1C, 1, 2, 0, 1);
    assert(fallen_by(ONE, 999) == 0x3F50_624D_D2F1_9A1C);
}

/// A gain that is used up stays used up.
proof fn lemma_nothing_stays(gain: u64, a: nat, b: nat)
    requires
        fallen_by(gain, a) == 0,
        a <= b,
    ensures
        fallen_by(gain, b) == 0,
    decreases b - a,
{
    if a < b {
        lemma_nothing_stays(gain, a, (b - 1) as nat);
    }
}

/// The gain of a voice that is being released follows the fall of the gain.
proof fn lemma_voice_follows(v: VoiceState, n: nat)
    requires
        v.active,
        v.releasing,
        v.env_gain == ONE,
    ensures
        v.after(n).env_gain == fallen_by(ONE, n),
        v.after(n).active <==> fallen_by(ONE, n) > 0,
        v.after(n).active ==> v.after(n).releasing,
    decreases n,
{
    if n > 0 {
        lemma_voice_follows(v, (n - 1) as nat);
    }
}

/// A voice that is held keeps its full gain.
proof fn lemma_held(v: VoiceState, n: nat)
    requires
        v.active,
        !v.releasing,
        v.env_gain == ONE,
    ensures
        v.after(n).active,
        !v.after(n).releasing,
        v.after(n).env_gain == ONE,
    decreases n,
{
    if n > 0 {
        lemma_held(v, (n - 1) as nat);
    }
}

/// A note that is struck, held for any number of samples and then let go sounds
/// for exactly a thousand samples more.
pub proof fn release_lasts_a_thousand_samples(
    voice: VoiceState,
    note: u8,
    freq: u64,
    held: nat,
    n: nat,
)
    ensures
        voice.struck(note, freq).after(held).active,
        voice.struck(note, freq).after(held).released().after(n).active <==> n < 1000,
{
    lemma_held(voice.struck(note, freq), held);
    let v = voice.struck(note, freq).after(held).released();
    lemma_voice_follows(v, n);
    lemma_fall_from_one();
    if n >= 1000 {
        assert(fallen_by(ONE, 1000) == 0);
        lemma_nothing_stays(ONE, 1000, n);
    } else if fallen_by(ONE, n) == 0 {
        lemma_nothing_stays(ONE, n, 999);
    }
}

}
