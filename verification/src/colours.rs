//! Tone mapping: from a sum of samples to the bytes of a pixel.
use crate::fixed::{Fixed, ONE_RAW};
use crate::vec3::Vec3;
use vstd::prelude::*;

verus! {

/// The byte of one channel: the sum `c` of `samples` samples is divided by
/// their number, its square root (the gamma correction) is brought into
/// `[0, 1]` and scaled by 256, and 256 itself becomes 255.
pub open spec fn channel_byte(c: Fixed, samples: int) -> int {
    let level = c.over(Fixed::whole(samples)).root().unit_clamped();
    let scaled = Fixed::whole(256).times(level).whole_part();
    if scaled > 255 {
        255
    } else if scaled < 0 {
        0
    } else {
        scaled
    }
}

/// The three bytes of a pixel.
pub open spec fn tone_mapped(colour: Vec3, samples: int) -> Seq<u8> {
    seq![
        channel_byte(colour.x, samples) as u8,
        channel_byte(colour.y, samples) as u8,
        channel_byte(colour.z, samples) as u8,
    ]
}

/// A channel byte is a byte. A channel whose average is one or more
/// becomes 255, and one that is zero or less becomes 0: what is too bright
/// is clamped and never wraps.
pub proof fn lemma_channel_byte_bounds(c: Fixed, samples: int)
    ensures
        0 <= channel_byte(c, samples) <= 255,
        c.over(Fixed::whole(samples))@ >= ONE_RAW ==> channel_byte(c, samples) == 255,
        c.over(Fixed::whole(samples))@ <= 0 ==> channel_byte(c, samples) == 0,
{
    let average = c.over(Fixed::whole(samples));
    let level = average.root().unit_clamped();
    if average@ >= ONE_RAW {
        let n = average@ * ONE_RAW;
        assert(ONE_RAW * ONE_RAW <= n < 0x8000_0000_0000_0000_0000_0000) by (nonlinear_arith)
            requires
                n == average@ * ONE_RAW,
                ONE_RAW <= average@ < 0x8000_0000_0000_0000,
                ONE_RAW == 0x1_0000_0000,
        ;
        crate::fixed::lemma_floor_sqrt_exists(n);
        let s = crate::fixed::floor_sqrt(n);
        if s < ONE_RAW {
            assert((s + 1) * (s + 1) <= ONE_RAW * ONE_RAW) by (nonlinear_arith)
                requires
                    0 <= s + 1 <= ONE_RAW,
            ;
        }
        assert(level == Fixed::whole(1));
        Fixed::whole(256).lemma_times_one();
    } else if average@ <= 0 {
        assert(average@ * ONE_RAW <= 0) by (nonlinear_arith)
            requires
                average@ <= 0,
                ONE_RAW > 0,
        ;
        assert(level == Fixed::whole(0));
        Fixed::whole(256).lemma_times_zero();
    }
}

/// One channel of a pixel.
fn channel(c: Fixed, samples: Fixed) -> (b: u8)
    ensures
        forall|n: int| samples == Fixed::whole(n) ==> b == channel_byte(c, n),
{
    let level = (c / samples).sqrt().clamp_unit();
    let scaled: i64 = (Fixed::from_int(256) * level).trunc();
    if scaled > 255 {
        255
    } else if scaled < 0 {
        0
    } else {
        scaled as u8
    }
}

/// The pixel for the sum `colour` of `samples_per_pixel` samples: the
/// average, gamma-corrected by a square root, clamped to `[0, 1]` and
/// scaled to a byte, channel by channel.
pub fn write_colours(colour: Vec3, samples_per_pixel: i32) -> (pixel: [u8; 3])
    ensures
        pixel@ == tone_mapped(colour, samples_per_pixel as int),
{
    let samples = Fixed::from_int(samples_per_pixel);
    let r = channel(colour.x(), samples);
    let g = channel(colour.y(), samples);
    let b = channel(colour.z(), samples);
    proof {
        lemma_channel_byte_bounds(colour.x, samples_per_pixel as int);
        lemma_channel_byte_bounds(colour.y, samples_per_pixel as int);
        lemma_channel_byte_bounds(colour.z, samples_per_pixel as int);
    }
    let pixel = [r, g, b];
    assert(pixel@ =~= tone_mapped(colour, samples_per_pixel as int));
    pixel
}

} // verus!
