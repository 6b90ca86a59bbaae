//! Reading the continuous (endless) potentiometer: its two wipers give two
//! triangle waves a quarter turn apart, combined here into one angle.
use vstd::prelude::*;

verus! {

/// Number of distinct readings of one 16-bit ADC channel.
pub const ADC_RANGE: i32 = 65536;

/// The middle of the ADC range.
pub const ADC_MIDPT: u16 = 32768;

/// Number of distinct angles over one turn.
pub const ANGLE_MAX: i32 = ADC_RANGE * 2;

/// Combines the two phase-shifted triangle readings of the continuous pot:
/// while the first reads below the midpoint the angle is the second reading
/// (rising through the first half turn), otherwise it is the second reading
/// mirrored into the second half turn.
pub fn angle(val1: u16, val2: u16) -> (r: i32)
    ensures
        r == if val1 < ADC_MIDPT {
            val2 as int
        } else {
            ANGLE_MAX - 1 - val2
        },
        0 <= r < ANGLE_MAX,
        (r < ADC_RANGE) == (val1 < ADC_MIDPT),
{
    if val1 < ADC_MIDPT {
        val2 as i32
    } else {
        ANGLE_MAX - 1 - val2 as i32
    }
}

} // verus!
