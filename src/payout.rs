use vstd::prelude::*;

use crate::types::{Address, Amount, PayoutId, PayoutStatus, PayoutType, Tick};

verus! {

/// The schedule of a payout.
#[derive(Clone, Copy, Debug, PartialEq, Eq, Structural)]
pub enum PayoutKind {
    /// A single payment, at `scheduled_tick` or immediately when absent.
    OneTime { scheduled_tick: Option<Tick> },
    /// `total_installments` payments of the same amount, `interval` ticks
    /// apart, the first at `start_tick` or immediately when absent.
    Recurring { start_tick: Option<Tick>, interval: Tick, total_installments: u32 },
    /// A total released in `vesting_duration / vesting_interval` equal
    /// installments (the last one absorbs the rounding remainder), the first
    /// at `cliff_tick` or immediately when absent.
    Vested { cliff_tick: Option<Tick>, vesting_duration: Tick, vesting_interval: Tick },
}

impl PayoutKind {
    /// The tick the current installment waits for, if any.
    pub open spec fn start(self) -> Option<Tick> {
        match self {
            PayoutKind::OneTime { scheduled_tick } => scheduled_tick,
            PayoutKind::Recurring { start_tick, .. } => start_tick,
            PayoutKind::Vested { cliff_tick, .. } => cliff_tick,
        }
    }

    pub open spec fn spec_payout_type(self) -> PayoutType {
        match self {
            PayoutKind::OneTime { .. } => PayoutType::OneTime,
            PayoutKind::Recurring { .. } => PayoutType::Recurring,
            PayoutKind::Vested { .. } => PayoutType::Vested,
        }
    }

    /// The shape of this schedule.
    pub fn payout_type(&self) -> (r: PayoutType)
        ensures
            r == self.spec_payout_type(),
    {
        match self {
            PayoutKind::OneTime { .. } => PayoutType::OneTime,
            PayoutKind::Recurring { .. } => PayoutType::Recurring,
            PayoutKind::Vested { .. } => PayoutType::Vested,
        }
    }
}

/// A request to create a payout: who receives it, the amount (per
/// installment, or the total of a vested schedule) and the schedule.
#[derive(Clone, Copy, Debug)]
pub struct PayoutRequest {
    pub to: Address,
    pub amount: Amount,
    pub kind: PayoutKind,
}

/// The number of installments a schedule declares: one for a one-time
/// payout, `vesting_duration / vesting_interval` for a vested one (zero
/// when the interval is zero).
pub open spec fn installments_of(kind: PayoutKind) -> int {
    match kind {
        PayoutKind::OneTime { .. } => 1,
        PayoutKind::Recurring { total_installments, .. } => total_installments as int,
        PayoutKind::Vested { vesting_duration, vesting_interval, .. } => if vesting_interval == 0 {
            0
        } else {
            vesting_duration as int / vesting_interval as int
        },
    }
}

/// The number of installments `kind` declares.
pub fn installment_count_of(kind: &PayoutKind) -> (r: u32)
    ensures
        r == installments_of(*kind),
{
    match kind {
        PayoutKind::OneTime { .. } => 1,
        PayoutKind::Recurring { total_installments, .. } => *total_installments,
        PayoutKind::Vested { vesting_duration, vesting_interval, .. } => {
            if *vesting_interval == 0 {
                0
            } else {
                *vesting_duration / *vesting_interval
            }
        },
    }
}

/// A payout record, as the treasury stores it.
///
/// `amount` is the amount of each installment for one-time and recurring
/// payouts, and the declared total for vested ones.  A recurring or vested
/// schedule is a chain of records: each settled installment is archived
/// under its own id and its successor is a new pending record.
#[derive(Clone, Debug)]
pub struct Payout {
    pub id: PayoutId,
    pub recipient: Address,
    pub kind: PayoutKind,
    pub amount: Amount,
    pub created_tick: Tick,
    pub status: PayoutStatus,
    /// Distinct approvers of the payment, at most `MAX_APPROVALS`.
    pub approvals: Vec<Address>,
    /// Distinct approvers of a cancellation, at most `MAX_APPROVALS`.
    pub cancellation_approvals: Vec<Address>,
    /// Installments of the schedule settled before this record.
    pub completed_count: u32,
    /// Installments of the whole schedule.
    pub installment_count: u32,
    /// Amount released by the installments settled before this record.
    pub released_amount: Amount,
}

/// The mathematical value of a [`Payout`].
pub struct PayoutView {
    pub id: PayoutId,
    pub recipient: Address,
    pub kind: PayoutKind,
    pub amount: Amount,
    pub created_tick: Tick,
    pub status: PayoutStatus,
    pub approvals: Seq<Address>,
    pub cancellation_approvals: Seq<Address>,
    pub completed_count: u32,
    pub installment_count: u32,
    pub released_amount: Amount,
}

impl View for Payout {
    type V = PayoutView;

    open spec fn view(&self) -> PayoutView {
        PayoutView {
            id: self.id,
            recipient: self.recipient,
            kind: self.kind,
            amount: self.amount,
            created_tick: self.created_tick,
            status: self.status,
            approvals: self.approvals@,
            cancellation_approvals: self.cancellation_approvals@,
            completed_count: self.completed_count,
            installment_count: self.installment_count,
            released_amount: self.released_amount,
        }
    }
}

/// The values of a sequence of records.
pub open spec fn views(s: Seq<Payout>) -> Seq<PayoutView> {
    s.map_values(|p: Payout| p@)
}

/// Whether a schedule whose current installment waits for `kind.start()`
/// may pay at `now`.
pub open spec fn ready_at(kind: PayoutKind, now: Tick) -> bool {
    match kind.start() {
        None => true,
        Some(t) => now >= t,
    }
}

pub open spec fn sat_add_tick(a: Tick, b: Tick) -> Tick {
    if a + b <= u32::MAX {
        (a + b) as Tick
    } else {
        u32::MAX
    }
}

impl PayoutView {
    /// Installments left, this record's included.
    pub open spec fn remaining(self) -> int {
        self.installment_count - self.completed_count
    }

    /// What settling this record pays: the fixed amount, or for a vested
    /// schedule an equal share of the total and, on the last installment,
    /// all that the earlier ones left unreleased.
    pub open spec fn due(self) -> Amount {
        match self.kind {
            PayoutKind::Vested { .. } => if self.installment_count == 0 {
                0
            } else if self.remaining() == 1 {
                if self.released_amount <= self.amount {
                    (self.amount - self.released_amount) as Amount
                } else {
                    0
                }
            } else {
                (self.amount as int / self.installment_count as int) as Amount
            },
            _ => self.amount,
        }
    }

    /// Whether settling this record leaves a further installment to pay.
    pub open spec fn spawns(self) -> bool {
        match self.kind {
            PayoutKind::OneTime { .. } => false,
            PayoutKind::Recurring { .. } => self.completed_count + 1 < self.installment_count,
            PayoutKind::Vested { .. } => self.completed_count + 1 < self.installment_count
                && self.released_amount + self.due() < self.amount,
        }
    }

    /// The record of the next installment, under id `id`, when this one
    /// settles at `now`: it waits one interval from `now`.
    pub open spec fn successor(self, id: PayoutId, now: Tick) -> PayoutView {
        PayoutView {
            id,
            kind: match self.kind {
                PayoutKind::Recurring { start_tick, interval, total_installments } =>
                    PayoutKind::Recurring {
                        start_tick: Some(sat_add_tick(now, interval)),
                        interval,
                        total_installments,
                    },
                PayoutKind::Vested { cliff_tick, vesting_duration, vesting_interval } =>
                    PayoutKind::Vested {
                        cliff_tick: Some(sat_add_tick(now, vesting_interval)),
                        vesting_duration,
                        vesting_interval,
                    },
                PayoutKind::OneTime { scheduled_tick } => self.kind,
            },
            status: PayoutStatus::Pending,
            completed_count: (self.completed_count + 1) as u32,
            released_amount: match self.kind {
                PayoutKind::Vested { .. } => (self.released_amount + self.due()) as Amount,
                _ => self.released_amount,
            },
            ..self
        }
    }

    /// This record, archived as settled at `now`.
    pub open spec fn settled_at(self, now: Tick) -> PayoutView {
        PayoutView { status: PayoutStatus::Completed(now), ..self }
    }

    /// This record, archived as cancelled at `now`.
    pub open spec fn cancelled_at(self, now: Tick) -> PayoutView {
        PayoutView { status: PayoutStatus::Cancelled(now), ..self }
    }
}

/// Whether `payout` may pay at `now`: its scheduled, start or cliff tick
/// (absent meaning immediately) has been reached.
pub fn is_ready(payout: &Payout, now: Tick) -> (r: bool)
    ensures
        r == ready_at(payout.kind, now),
{
    let start = match payout.kind {
        PayoutKind::OneTime { scheduled_tick } => scheduled_tick,
        PayoutKind::Recurring { start_tick, .. } => start_tick,
        PayoutKind::Vested { cliff_tick, .. } => cliff_tick,
    };
    match start {
        None => true,
        Some(t) => now >= t,
    }
}

/// The amount settling `payout` pays.
pub fn calculate_payout_amount(payout: &Payout) -> (r: Amount)
    ensures
        r == payout@.due(),
{
    match payout.kind {
        PayoutKind::Vested { .. } => {
            if payout.installment_count == 0 {
                0
            } else if payout.completed_count < payout.installment_count
                && payout.installment_count - payout.completed_count == 1 {
                payout.amount.saturating_sub(payout.released_amount)
            } else {
                payout.amount / (payout.installment_count as u128)
            }
        },
        _ => payout.amount,
    }
}

/// Whether settling `payout` leaves a further installment to pay.
pub fn spawns_successor(payout: &Payout) -> (r: bool)
    ensures
        r == payout@.spawns(),
{
    match payout.kind {
        PayoutKind::OneTime { .. } => false,
        PayoutKind::Recurring { .. } => {
            payout.completed_count < payout.installment_count
                && payout.installment_count - payout.completed_count > 1
        },
        PayoutKind::Vested { .. } => {
            let due = calculate_payout_amount(payout);
            payout.completed_count < payout.installment_count
                && payout.installment_count - payout.completed_count > 1
                && payout.released_amount < payout.amount
                && due < payout.amount - payout.released_amount
        },
    }
}

/// A copy of `v`.
pub fn copy_addresses(v: &Vec<Address>) -> (r: Vec<Address>)
    ensures
        r@ == v@,
{
    let mut r: Vec<Address> = Vec::new();
    let mut i: usize = 0;
    while i < v.len()
        invariant
            0 <= i <= v.len(),
            r@ == v@.subrange(0, i as int),
        decreases v.len() - i,
    {
        r.push(v[i]);
        i = i + 1;
        proof {
            assert(r@ =~= v@.subrange(0, i as int));
        }
    }
    proof {
        assert(v@.subrange(0, v@.len() as int) =~= v@);
    }
    r
}

/// Whether `a` occurs in `v`.
pub fn contains_address(v: &Vec<Address>, a: &Address) -> (r: bool)
    ensures
        r == v@.contains(*a),
{
    let mut i: usize = 0;
    while i < v.len()
        invariant
            0 <= i <= v.len(),
            forall|j: int| 0 <= j < i ==> v@[j] != *a,
        decreases v.len() - i,
    {
        if v[i] == *a {
            proof {
                assert(v@[i as int] == *a);
            }
            return true;
        }
        i = i + 1;
    }
    false
}

impl Payout {
    /// A copy of this record.
    pub fn copy_record(&self) -> (r: Payout)
        ensures
            r@ == self@,
    {
        Payout {
            id: self.id,
            recipient: self.recipient,
            kind: self.kind,
            amount: self.amount,
            created_tick: self.created_tick,
            status: self.status,
            approvals: copy_addresses(&self.approvals),
            cancellation_approvals: copy_addresses(&self.cancellation_approvals),
            completed_count: self.completed_count,
            installment_count: self.installment_count,
            released_amount: self.released_amount,
        }
    }

    /// The record of the next installment under id `id`, when this one
    /// settles at `now`.
    pub fn next_installment(&self, id: PayoutId, now: Tick) -> (r: Payout)
        requires
            self@.spawns(),
        ensures
            r@ == self@.successor(id, now),
    {
        let due = calculate_payout_amount(self);
        let kind = match self.kind {
            PayoutKind::Recurring { start_tick, interval, total_installments } =>
                PayoutKind::Recurring {
                    start_tick: Some(now.saturating_add(interval)),
                    interval,
                    total_installments,
                },
            PayoutKind::Vested { cliff_tick, vesting_duration, vesting_interval } =>
                PayoutKind::Vested {
                    cliff_tick: Some(now.saturating_add(vesting_interval)),
                    vesting_duration,
                    vesting_interval,
                },
            PayoutKind::OneTime { scheduled_tick } => self.kind,
        };
        let released = match self.kind {
            PayoutKind::Vested { .. } => self.released_amount + due,
            _ => self.released_amount,
        };
        Payout {
            id,
            recipient: self.recipient,
            kind,
            amount: self.amount,
            created_tick: self.created_tick,
            status: PayoutStatus::Pending,
            approvals: copy_addresses(&self.approvals),
            cancellation_approvals: copy_addresses(&self.cancellation_approvals),
            completed_count: self.completed_count + 1,
            installment_count: self.installment_count,
            released_amount: released,
        }
    }
}

} // verus!
