//! Slots of a circular buffer: absolute positions taken modulo its capacity.
use vstd::arithmetic::div_mod::*;
use vstd::prelude::*;

verus! {

/// Two positions less than one capacity apart never share a slot.
pub proof fn lemma_slots_differ(a: int, b: int, capacity: int)
    requires
        0 <= a < b,
        b - a < capacity,
    ensures
        a % capacity != b % capacity,
{
    lemma_fundamental_div_mod(a, capacity);
    lemma_fundamental_div_mod(b, capacity);
    if a % capacity == b % capacity {
        let step = b / capacity - a / capacity;
        assert(capacity * (b / capacity) - capacity * (a / capacity) == capacity * step)
            by (nonlinear_arith)
            requires
                step == b / capacity - a / capacity,
        ;
        assert(step != 0 && step < 1 ==> capacity * step <= -capacity) by (nonlinear_arith)
            requires
                capacity > 0,
        ;
        assert(step >= 1 ==> capacity * step >= capacity) by (nonlinear_arith)
            requires
                capacity > 0,
        ;
        assert(step == 0 ==> capacity * step == 0) by (nonlinear_arith);
    }
}

/// A slot lies inside the buffer.
pub proof fn lemma_slot_bound(a: int, capacity: int)
    requires
        capacity > 0,
    ensures
        0 <= a % capacity < capacity,
{
    lemma_mod_bound(a, capacity);
}

} // verus!
