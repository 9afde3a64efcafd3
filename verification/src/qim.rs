//! Quantization index modulation: the integer rule.
//!
//! A bit is hidden in a real value by moving the value to a multiple of the
//! quantization step whose index has the bit's parity.  The arithmetic on the
//! real values (dividing by the step, rounding, multiplying back) stays with
//! the caller; this module decides which index the value goes to, and which
//! bit an index carries.
use vstd::prelude::*;

verus! {

/// The bit an index carries: its parity (odd → `true`).
pub open spec fn parity(q: int) -> bool {
    q % 2 == 1
}

/// The index that embedding `bit` moves a value with rounded index `q` to.
///
/// `value_above` says whether the value lies at or above `q` steps.
pub open spec fn embedded_index(q: int, bit: bool, value_above: bool) -> int {
    if parity(q) == bit {
        q
    } else if value_above {
        q + 1
    } else {
        q - 1
    }
}

/// The bit carried by the rounded quotient `q` (two's-complement parity:
/// `-1` carries `true`).
pub fn index_parity(q: i64) -> (bit: bool)
    ensures
        bit == parity(q as int),
        bit <==> (q as int) % 2 == 1,
{
    let low = q & 1;
    assert(low == 1 <==> (q as int) % 2 == 1) by (bit_vector)
        requires
            low == q & 1,
    ;
    low == 1
}

/// The quantization index at which `bit` is embedded, for a value whose
/// rounded index is `q`.
///
/// When `q` already has the bit's parity the value goes to `q`; otherwise to
/// the neighbouring index on the value's side (`value_above`: the value lies
/// at or above `q` steps), which keeps the distortion within one step.
pub fn embed_index(q: i64, bit: bool, value_above: bool) -> (k: i64)
    requires
        i64::MIN < q < i64::MAX,
    ensures
        k == embedded_index(q as int, bit, value_above),
        parity(k as int) == bit,
        -1 <= k - q <= 1,
        (q as int) % 2 == (if bit { 1int } else { 0int }) ==> k == q,
        value_above ==> k >= q,
        !value_above ==> k <= q,
{
    if index_parity(q) == bit {
        q
    } else if value_above {
        q + 1
    } else {
        q - 1
    }
}

/// The rule of quantization index modulation: the embedded index carries
/// the bit (its remainder modulo 2 is the bit), stays put when the rounded
/// index already carries it, and otherwise moves by one step towards the
/// value, so a value within half a step of `q` moves by at most one step.
pub proof fn lemma_embedded_index_rule(q: int, bit: bool, value_above: bool)
    ensures
        embedded_index(q, bit, value_above) % 2 == (if bit { 1int } else { 0int }),
        q % 2 == (if bit { 1int } else { 0int }) ==> embedded_index(q, bit, value_above) == q,
        q % 2 != (if bit { 1int } else { 0int }) && value_above ==> embedded_index(q, bit, value_above) == q + 1,
        q % 2 != (if bit { 1int } else { 0int }) && !value_above ==> embedded_index(q, bit, value_above) == q - 1,
{
}

} // verus!
