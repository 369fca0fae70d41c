//! The computations behind the host-facing exports: turning the integers a
//! host passes into library values.

use vstd::prelude::*;
use vstd::math::min;
use crate::wasm_bridge::{Trit, Tryte, WasmBridge, clamp_tryte, serialized_trits};

verus! {

/// The trit an `i8` from the host stands for: the trit of its sign.
pub open spec fn trit_of_i8(v: i8) -> Trit {
    if v < 0 {
        Trit::Neg
    } else if v == 0 {
        Trit::Zero
    } else {
        Trit::Pos
    }
}

/// The state of an agent spawned from two host integers: the low byte of
/// `low` and the low byte of `high` make a 16-bit value, which is clamped to
/// the tryte range.
pub fn agent_state_from_host(low: i32, high: i32) -> (r: Tryte)
    ensures
        r.value() == clamp_tryte((low & 0xFF) + 256 * (high & 0xFF)),
{
    let a = low & 0xFF;
    let b = high & 0xFF;
    assert(0 <= a < 256 && 0 <= b < 256) by (bit_vector)
        requires
            a == low & 0xFF,
            b == high & 0xFF,
    ;
    assert(a | (b << 8) == a + 256 * b) by (bit_vector)
        requires
            0 <= a < 256,
            0 <= b < 256,
    ;
    let combined = a | (b << 8);
    Tryte::from_i32(combined)
}

/// The bytes to write for trits given by the host as `i8` values (each
/// read as the trit of its sign): the packed trits, two bytes per five,
/// cut to the `out_len` bytes the host's buffer holds.
pub fn serialize_host_trits(values: &[i8], out_len: usize) -> (out: Vec<u8>)
    ensures
        out@ == serialized_trits(values@.map_values(|v: i8| trit_of_i8(v))).take(
            min(out_len as int, serialized_trits(values@.map_values(|v: i8| trit_of_i8(v))).len() as int),
        ),
{
    let mut trits: Vec<Trit> = Vec::new();
    let mut i: usize = 0;
    while i < values.len()
        invariant
            i <= values@.len(),
            trits@ == values@.take(i as int).map_values(|v: i8| trit_of_i8(v)),
        decreases values@.len() - i,
    {
        let t = Trit::from_i8(values[i]);
        trits.push(t);
        assert(values@.take((i + 1) as int) == values@.take(i as int).push(values@[i as int]));
        i = i + 1;
    }
    assert(values@.take(values@.len() as int) == values@);
    let mut bytes = WasmBridge::serialize_trits(trits.as_slice());
    let ghost full = bytes@;
    bytes.truncate(out_len);
    assert(bytes@ =~= full.take(min(out_len as int, full.len() as int)));
    bytes
}

} // verus!
