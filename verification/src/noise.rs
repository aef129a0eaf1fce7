//! The pseudo-random generator behind the noise oscillator and the random
//! arpeggio: a 32-bit xorshift register.
use vstd::prelude::*;

verus! {

/// The register after one step.
pub open spec fn shifted(x: u32) -> u32 {
    let a = x ^ (x << 13);
    let b = a ^ (a >> 17);
    b ^ (b << 5)
}

/// One step of the register.
pub fn xorshift(x: u32) -> (r: u32)
    ensures
        r == shifted(x),
{
    let a: u32 = x ^ (x << 13);
    let b: u32 = a ^ (a >> 17);
    b ^ (b << 5)
}

/// A register that is not zero never becomes zero.
pub proof fn lemma_never_stuck(x: u32)
    requires
        x != 0,
    ensures
        shifted(x) != 0,
{
    assert(x != 0 ==> ({
        let a = x ^ (x << 13);
        let b = a ^ (a >> 17);
        b ^ (b << 5)
    }) != 0) by (bit_vector);
}

/// Different registers stay different.
pub proof fn lemma_step_is_injective(x: u32, y: u32)
    requires
        x != y,
    ensures
        shifted(x) != shifted(y),
{
    assert(x != y ==> ({
        let a = x ^ (x << 13);
        let b = a ^ (a >> 17);
        b ^ (b << 5)
    }) != ({
        let a = y ^ (y << 13);
        let b = a ^ (a >> 17);
        b ^ (b << 5)
    })) by (bit_vector);
}

/// A step can be undone: from the register after it follows the one before.
pub proof fn lemma_step_can_be_undone(x: u32)
    ensures
        ({
            let r = shifted(x);
            let b = r ^ (r << 5) ^ (r << 10) ^ (r << 15) ^ (r << 20) ^ (r << 25) ^ (r << 30);
            let a = b ^ (b >> 17);
            x == a ^ (a << 13) ^ (a << 26)
        }),
{
    assert({
        let p = x ^ (x << 13);
        let q = p ^ (p >> 17);
        let r = q ^ (q << 5);
        let b = r ^ (r << 5) ^ (r << 10) ^ (r << 15) ^ (r << 20) ^ (r << 25) ^ (r << 30);
        let a = b ^ (b >> 17);
        x == a ^ (a << 13) ^ (a << 26)
    }) by (bit_vector);
}

} // verus!
