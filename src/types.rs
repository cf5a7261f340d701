use vstd::prelude::*;

verus! {

/// A logical clock value (a block height).
pub type Tick = u32;

/// An amount in the smallest accounting unit.
pub type Amount = u128;

/// Identifier of a payout record.
pub type PayoutId = u32;

/// The number of bytes in an address.
pub const ADDRESS_LEN: usize = 32;

/// An opaque fixed-width account identifier (recipient, approver, owner).
#[derive(Clone, Copy, Debug, Eq, Hash)]
pub struct Address {
    pub bytes: [u8; 32],
}

impl Address {
    /// The address made of the given bytes.
    pub fn from_bytes(bytes: [u8; 32]) -> (r: Address)
        ensures
            r.bytes == bytes,
    {
        Address { bytes }
    }
}

/// Lexicographic order on byte strings of equal length.
pub open spec fn bytes_lt(a: Seq<u8>, b: Seq<u8>) -> bool
    decreases a.len(),
{
    if a.len() == 0 || b.len() == 0 {
        false
    } else if a[0] != b[0] {
        a[0] < b[0]
    } else {
        bytes_lt(a.drop_first(), b.drop_first())
    }
}

impl Address {
    /// The order of addresses: lexicographic on their bytes.
    pub open spec fn lt(self, other: Address) -> bool {
        bytes_lt(self.bytes@, other.bytes@)
    }

    /// Whether this address comes before `other`.
    pub fn precedes(&self, other: &Address) -> (r: bool)
        ensures
            r == self.lt(*other),
    {
        let mut i: usize = 0;
        proof {
            assert(self.bytes@.subrange(0, 32) =~= self.bytes@);
            assert(other.bytes@.subrange(0, 32) =~= other.bytes@);
        }
        while i < ADDRESS_LEN
            invariant
                0 <= i <= ADDRESS_LEN,
                self.lt(*other) == bytes_lt(self.bytes@.subrange(i as int, 32), other.bytes@.subrange(i as int, 32)),
            decreases ADDRESS_LEN - i,
        {
            proof {
                let x = self.bytes@.subrange(i as int, 32);
                let y = other.bytes@.subrange(i as int, 32);
                assert(x[0] == self.bytes@[i as int]);
                assert(y[0] == other.bytes@[i as int]);
                assert(x.drop_first() =~= self.bytes@.subrange(i + 1, 32));
                assert(y.drop_first() =~= other.bytes@.subrange(i + 1, 32));
            }
            if self.bytes[i] != other.bytes[i] {
                return self.bytes[i] < other.bytes[i];
            }
            i = i + 1;
        }
        false
    }
}

/// Lexicographic order never relates a string to itself.
pub proof fn lemma_bytes_lt_irreflexive(a: Seq<u8>)
    ensures
        !bytes_lt(a, a),
    decreases a.len(),
{
    if a.len() > 0 {
        lemma_bytes_lt_irreflexive(a.drop_first());
    }
}

/// Lexicographic order is transitive.
pub proof fn lemma_bytes_lt_transitive(a: Seq<u8>, b: Seq<u8>, c: Seq<u8>)
    requires
        a.len() == b.len(),
        b.len() == c.len(),
        bytes_lt(a, b),
        bytes_lt(b, c),
    ensures
        bytes_lt(a, c),
    decreases a.len(),
{
    if a.len() > 0 && a[0] == b[0] && b[0] == c[0] {
        lemma_bytes_lt_transitive(a.drop_first(), b.drop_first(), c.drop_first());
    }
}

/// Two different strings of equal length are ordered one way or the other.
pub proof fn lemma_bytes_lt_total(a: Seq<u8>, b: Seq<u8>)
    requires
        a.len() == b.len(),
        a != b,
    ensures
        bytes_lt(a, b) || bytes_lt(b, a),
    decreases a.len(),
{
    if a.len() == 0 {
        assert(a =~= b);
    } else if a[0] == b[0] {
        if a.drop_first() == b.drop_first() {
            assert(a =~= b) by {
                assert forall|k: int| 0 <= k < a.len() implies a[k] == b[k] by {
                    if k > 0 {
                        assert(a[k] == a.drop_first()[k - 1]);
                        assert(b[k] == b.drop_first()[k - 1]);
                    }
                }
            }
        }
        lemma_bytes_lt_total(a.drop_first(), b.drop_first());
    }
}

/// Two different addresses are ordered one way or the other, and none
/// comes before itself.
pub proof fn lemma_address_order(a: Address, b: Address)
    ensures
        !a.lt(a),
        a != b ==> a.lt(b) || b.lt(a),
        a.lt(b) ==> !b.lt(a),
{
    broadcast use vstd::array::axiom_array_ext_equal;
    lemma_bytes_lt_irreflexive(a.bytes@);
    if a != b {
        if a.bytes@ == b.bytes@ {
            assert(a.bytes@ =~= b.bytes@);
            assert(a.bytes == b.bytes);
            assert(a == b);
        }
        lemma_bytes_lt_total(a.bytes@, b.bytes@);
    }
    if a.lt(b) && b.lt(a) {
        lemma_bytes_lt_transitive(a.bytes@, b.bytes@, a.bytes@);
    }
}

/// Addresses in strictly increasing order (so each occurs once).
pub open spec fn sorted_addresses(s: Seq<Address>) -> bool {
    forall|i: int, j: int| 0 <= i < j < s.len() ==> (#[trigger] s[i]).lt(#[trigger] s[j])
}

impl PartialEq for Address {
    fn eq(&self, other: &Address) -> (r: bool) {
        let mut i: usize = 0;
        while i < ADDRESS_LEN
            invariant
                0 <= i <= ADDRESS_LEN,
                forall|j: int| 0 <= j < i ==> self.bytes@[j] == other.bytes@[j],
            decreases ADDRESS_LEN - i,
        {
            if self.bytes[i] != other.bytes[i] {
                return false;
            }
            i = i + 1;
        }
        proof {
            broadcast use vstd::array::axiom_array_ext_equal;
            assert(self.bytes@ =~= other.bytes@);
            assert(self.bytes == other.bytes);
        }
        true
    }
}

impl vstd::std_specs::cmp::PartialEqSpecImpl for Address {
    open spec fn obeys_eq_spec() -> bool {
        true
    }

    open spec fn eq_spec(&self, other: &Address) -> bool {
        *self == *other
    }
}

/// Lifecycle state of a payout record.
#[derive(Clone, Copy, Debug, PartialEq, Eq, Structural)]
pub enum PayoutStatus {
    Pending,
    Active,
    /// Settled at the given tick.
    Completed(Tick),
    /// Cancelled at the given tick.
    Cancelled(Tick),
}

impl PayoutStatus {
    /// Completed and Cancelled are terminal: nothing leaves them.
    pub open spec fn is_terminal(self) -> bool {
        self is Completed || self is Cancelled
    }
}

/// The shape of a payout, without its parameters.
#[derive(Clone, Copy, Debug, PartialEq, Eq, Structural)]
pub enum PayoutType {
    OneTime,
    Recurring,
    Vested,
}

/// Notification that a payout was cancelled by its approvers.
#[derive(Clone, Copy, Debug, PartialEq, Eq, Structural)]
pub struct PayoutCancelled {
    pub payout_id: PayoutId,
}

/// Errors returned by the treasury operations.
#[derive(Clone, Copy, Debug, PartialEq, Eq, Structural)]
pub enum Error {
    /// The caller lacks the role the operation needs.
    NotAuthorized,
    /// The transfer primitive rejected a payment.
    InsufficientBalance,
    /// A recurring or vested schedule resolves to zero installments.
    InvalidFrequency,
    /// The amount is not a positive multiple of the precision factor.
    PrecisionLoss,
    /// The id does not reference a pending record.
    PayoutNotFound,
    /// A settlement is already in progress.
    Reentrancy,
    /// The approver is already registered.
    AlreadyExists,
    /// Every payout identifier has been handed out.
    IdSpaceExhausted,
}

} // verus!
