use crate::state::{KeyState, State};
use vstd::prelude::*;

verus! {

/// One operation's cost: a flat base plus a charge per serialized byte.
#[derive(Clone, Copy, Debug)]
pub struct GasCost {
    pub base: u64,
    pub per_byte: u64,
}

/// The cost of a size-sensitive operation on `size` serialized bytes.
pub open spec fn sized_cost(c: GasCost, size: nat) -> int {
    c.base + c.per_byte * size
}

impl GasCost {
    /// The exact cost on `size` bytes; the widened result cannot overflow.
    pub fn charge(&self, size: u64) -> (r: u128)
        ensures
            r == sized_cost(*self, size as nat),
    {
        proof {
            vstd::arithmetic::mul::lemma_mul_upper_bound(
                self.per_byte as int,
                u64::MAX as int,
                size as int,
                u64::MAX as int,
            );
        }
        self.base as u128 + (self.per_byte as u128) * (size as u128)
    }

    /// The cost of an operation on one entry, priced by the serialized size of its key
    /// and value together.
    pub fn charge_entry(&self, key: &KeyState, value: &State) -> (r: u128)
        requires
            key.key@.len() + value.value@.len() <= u64::MAX,
        ensures
            r == sized_cost(*self, key.key@.len() + value.value@.len()),
    {
        let size = key.key.len() as u64 + value.value.len() as u64;
        self.charge(size)
    }
}

/// The table operations' gas schedule, built once and handed to the box store.
#[derive(Clone, Copy, Debug)]
pub struct GasParameters {
    pub load_base: u64,
    pub load_per_byte: u64,
    pub load_failure: u64,
    pub add_box: GasCost,
    pub borrow_box: GasCost,
    pub contains_box: GasCost,
    pub remove_box: GasCost,
    pub drop_unchecked_box_base: u64,
    pub box_length_base: u64,
}

/// The largest scaling factor for which every default cost fits in 64 bits.
pub const MAX_MUL: u64 = 18446744073709551;

impl GasParameters {
    /// The default schedule, every cost scaled by the protocol-wide factor `mul`.
    pub fn table_extension(mul: u64) -> (r: GasParameters)
        requires
            mul <= MAX_MUL,
        ensures
            r.load_base == 1000 * mul,
            r.load_per_byte == 10 * mul,
            r.load_failure == 5 * mul,
            r.add_box == (GasCost { base: (500 * mul) as u64, per_byte: (10 * mul) as u64 }),
            r.borrow_box == (GasCost { base: (500 * mul) as u64, per_byte: (10 * mul) as u64 }),
            r.contains_box == (GasCost { base: (500 * mul) as u64, per_byte: (10 * mul) as u64 }),
            r.remove_box == (GasCost { base: (500 * mul) as u64, per_byte: (10 * mul) as u64 }),
            r.drop_unchecked_box_base == 100 * mul,
            r.box_length_base == 100 * mul,
    {
        let sized = GasCost { base: 500 * mul, per_byte: 10 * mul };
        GasParameters {
            load_base: 1000 * mul,
            load_per_byte: 10 * mul,
            load_failure: 5 * mul,
            add_box: sized,
            borrow_box: sized,
            contains_box: sized,
            remove_box: sized,
            drop_unchecked_box_base: 100 * mul,
            box_length_base: 100 * mul,
        }
    }

    /// Cost of a successful load of `size` bytes.
    pub fn load_cost(&self, size: u64) -> (r: u128)
        ensures
            r == self.load_base + self.load_per_byte * size,
    {
        GasCost { base: self.load_base, per_byte: self.load_per_byte }.charge(size)
    }

    /// Cost of a load that found nothing: the base plus the failure surcharge.
    pub fn load_failure_cost(&self) -> (r: u128)
        ensures
            r == self.load_base + self.load_failure,
    {
        self.load_base as u128 + self.load_failure as u128
    }

    pub fn add_box_cost(&self, size: u64) -> (r: u128)
        ensures
            r == sized_cost(self.add_box, size as nat),
    {
        self.add_box.charge(size)
    }

    pub fn borrow_box_cost(&self, size: u64) -> (r: u128)
        ensures
            r == sized_cost(self.borrow_box, size as nat),
    {
        self.borrow_box.charge(size)
    }

    pub fn contains_box_cost(&self, size: u64) -> (r: u128)
        ensures
            r == sized_cost(self.contains_box, size as nat),
    {
        self.contains_box.charge(size)
    }

    pub fn remove_box_cost(&self, size: u64) -> (r: u128)
        ensures
            r == sized_cost(self.remove_box, size as nat),
    {
        self.remove_box.charge(size)
    }

    /// Flat: dropping a table never depends on how many entries it holds.
    pub fn drop_unchecked_box_cost(&self) -> (r: u128)
        ensures
            r == self.drop_unchecked_box_base,
    {
        self.drop_unchecked_box_base as u128
    }

    /// Flat: the length is a maintained count.
    pub fn box_length_cost(&self) -> (r: u128)
        ensures
            r == self.box_length_base,
    {
        self.box_length_base as u128
    }
}

/// A size-sensitive cost never decreases as the serialized size grows, the
/// schedule held fixed.
pub proof fn lemma_cost_monotone(c: GasCost, small: nat, large: nat)
    requires
        small <= large,
    ensures
        sized_cost(c, small) <= sized_cost(c, large),
{
    vstd::arithmetic::mul::lemma_mul_inequality(small as int, large as int, c.per_byte as int);
    vstd::arithmetic::mul::lemma_mul_is_commutative(small as int, c.per_byte as int);
    vstd::arithmetic::mul::lemma_mul_is_commutative(large as int, c.per_byte as int);
}

} // verus!
