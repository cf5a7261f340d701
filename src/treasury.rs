//! The treasury aggregate: construction and queries.  Submission, approval
//! and cancellation live in `registry`, settlement in `settlement`.
use vstd::prelude::*;

use crate::model::{
    find, ids_of, lemma_filter_push, lemma_map_push, lemma_take_next, TreasuryView,
};
use crate::payout::{copy_addresses, contains_address, ready_at, views, Payout, PayoutView};
use crate::policy::{default_table, default_thresholds, required_approvals_in, Threshold};
use crate::types::{
    lemma_address_order, lemma_bytes_lt_transitive, sorted_addresses, Address, Amount, PayoutId,
    PayoutStatus, PayoutType, Tick,
};

mod registry;
mod settlement;

verus! {

/// The root aggregate: approvers, approval table, pending records, archive,
/// id counter and re-entrancy latch.
pub struct Treasury {
    owner: Address,
    approvers: Vec<Address>,
    thresholds: Vec<Threshold>,
    pending: Vec<Payout>,
    archive: Vec<Payout>,
    assets: Vec<u32>,
    next_payout_id: PayoutId,
    processing: bool,
    settle_tick: Tick,
}

impl View for Treasury {
    type V = TreasuryView;

    closed spec fn view(&self) -> TreasuryView {
        TreasuryView {
            owner: self.owner,
            approvers: self.approvers@,
            thresholds: self.thresholds@,
            pending: views(self.pending@),
            archive: views(self.archive@),
            assets: self.assets@,
            next_id: self.next_payout_id,
            processing: self.processing,
            settle_tick: self.settle_tick,
        }
    }
}

/// Inserts `a`, which `v` lacks, at its place in the order.
pub(crate) fn insert_address(v: &mut Vec<Address>, a: Address)
    requires
        sorted_addresses(old(v)@),
        !old(v)@.contains(a),
    ensures
        sorted_addresses(final(v)@),
        final(v)@.len() == old(v)@.len() + 1,
        forall|x: Address| final(v)@.contains(x) == (old(v)@.contains(x) || x == a),
{
    let mut k: usize = 0;
    while k < v.len()
        invariant
            0 <= k <= v.len(),
            v@ == old(v)@,
            forall|j: int| 0 <= j < k ==> !a.lt(#[trigger] v@[j]),
        ensures
            0 <= k <= v.len(),
            v@ == old(v)@,
            forall|j: int| 0 <= j < k ==> !a.lt(#[trigger] v@[j]),
            k < v.len() ==> a.lt(v@[k as int]),
        decreases v.len() - k,
    {
        if a.precedes(&v[k]) {
            break;
        }
        k = k + 1;
    }
    let ghost o = v@;
    proof {
        assert forall|j: int| 0 <= j < k implies (#[trigger] o[j]).lt(a) by {
            lemma_address_order(a, o[j]);
            assert(o[j] != a);
        }
        assert forall|j: int| k <= j < o.len() implies a.lt(#[trigger] o[j]) by {
            if j > k {
                assert(o[k as int].lt(o[j]));
                lemma_bytes_lt_transitive(a.bytes@, o[k as int].bytes@, o[j].bytes@);
            }
        }
    }
    v.insert(k, a);
    proof {
        let n = v@;
        assert(n == o.insert(k as int, a));
        assert forall|i: int, j: int| 0 <= i < j < n.len() implies (#[trigger] n[i]).lt(#[trigger] n[j]) by {
            if j < k {
                assert(n[i] == o[i] && n[j] == o[j]);
            } else if j == k {
                assert(n[i] == o[i]);
            } else if i < k {
                assert(n[i] == o[i] && n[j] == o[j - 1]);
                lemma_bytes_lt_transitive(o[i].bytes@, a.bytes@, o[j - 1].bytes@);
            } else if i == k {
                assert(n[j] == o[j - 1]);
            } else {
                assert(n[i] == o[i - 1] && n[j] == o[j - 1]);
            }
        }
        assert forall|x: Address| n.contains(x) == (o.contains(x) || x == a) by {
            if o.contains(x) {
                let j = choose|j: int| 0 <= j < o.len() && o[j] == x;
                if j < k {
                    assert(n[j] == x);
                } else {
                    assert(n[j + 1] == x);
                }
            }
            if x == a {
                assert(n[k as int] == a);
            }
            if n.contains(x) {
                let j = choose|j: int| 0 <= j < n.len() && n[j] == x;
                if j < k {
                    assert(o[j] == x);
                } else if j > k {
                    assert(o[j - 1] == x);
                }
            }
        }
    }
}

/// The value of an optional record.
pub open spec fn opt_view(o: Option<Payout>) -> Option<PayoutView> {
    match o {
        Some(p) => Some(p@),
        None => None,
    }
}

/// Records whose current installment may pay at `now`.
pub open spec fn ready_pred(now: Tick) -> spec_fn(PayoutView) -> bool {
    |p: PayoutView| ready_at(p.kind, now)
}

/// Records whose current installment waits beyond `now`.
pub open spec fn scheduled_pred(now: Tick) -> spec_fn(PayoutView) -> bool {
    |p: PayoutView| !ready_at(p.kind, now)
}

/// Records of the given shape.
pub open spec fn type_pred(t: PayoutType) -> spec_fn(PayoutView) -> bool {
    |p: PayoutView| p.kind.spec_payout_type() == t
}

/// Records created between `start` and `end`, both included.
pub open spec fn created_within_pred(start: Tick, end: Tick) -> spec_fn(PayoutView) -> bool {
    |p: PayoutView| start <= p.created_tick && p.created_tick <= end
}

/// Records that settled.
pub open spec fn completed_pred() -> spec_fn(PayoutView) -> bool {
    |p: PayoutView| p.status is Completed
}

/// The last `n` records of `s`, most recent first.
pub open spec fn most_recent(s: Seq<PayoutView>, n: nat) -> Seq<PayoutView> {
    let k = if n <= s.len() {
        n as int
    } else {
        s.len() as int
    };
    Seq::new(k as nat, |j: int| s[s.len() - 1 - j])
}

/// What a listing keeps.
#[derive(Clone, Copy)]
enum Keep {
    Ready(Tick),
    Scheduled(Tick),
    OfType(PayoutType),
    CreatedWithin(Tick, Tick),
    Completed,
}

spec fn keeps(k: Keep, p: PayoutView) -> bool {
    match k {
        Keep::Ready(now) => ready_at(p.kind, now),
        Keep::Scheduled(now) => !ready_at(p.kind, now),
        Keep::OfType(t) => p.kind.spec_payout_type() == t,
        Keep::CreatedWithin(start, end) => start <= p.created_tick && p.created_tick <= end,
        Keep::Completed => p.status is Completed,
    }
}

spec fn keeps_pred(k: Keep) -> spec_fn(PayoutView) -> bool {
    |p: PayoutView| keeps(k, p)
}

fn test_keep(k: Keep, p: &Payout) -> (r: bool)
    ensures
        r == keeps(k, p@),
{
    match k {
        Keep::Ready(now) => crate::payout::is_ready(p, now),
        Keep::Scheduled(now) => !crate::payout::is_ready(p, now),
        Keep::OfType(t) => p.kind.payout_type() == t,
        Keep::CreatedWithin(start, end) => start <= p.created_tick && p.created_tick <= end,
        Keep::Completed => match p.status {
            PayoutStatus::Completed(_) => true,
            _ => false,
        },
    }
}

/// Copies of the records of `v` that `k` keeps, in order.
fn copies_kept(v: &Vec<Payout>, k: Keep) -> (r: Vec<Payout>)
    ensures
        views(r@) == views(v@).filter(keeps_pred(k)),
{
    let mut r: Vec<Payout> = Vec::new();
    let mut i: usize = 0;
    while i < v.len()
        invariant
            0 <= i <= v.len(),
            views(r@) == views(v@.subrange(0, i as int)).filter(keeps_pred(k)),
        decreases v.len() - i,
    {
        proof {
            lemma_take_next(v@, i as int);
            lemma_map_push(v@.subrange(0, i as int), v@[i as int], |p: Payout| p@);
            lemma_filter_push(views(v@.subrange(0, i as int)), v@[i as int]@, keeps_pred(k));
        }
        if test_keep(k, &v[i]) {
            let c = v[i].copy_record();
            proof {
                lemma_map_push(r@, c, |p: Payout| p@);
            }
            r.push(c);
        }
        i = i + 1;
    }
    proof {
        assert(v@.subrange(0, v@.len() as int) =~= v@);
    }
    r
}

/// Copies of all records of `v`, in order.
fn copies(v: &Vec<Payout>) -> (r: Vec<Payout>)
    ensures
        views(r@) == views(v@),
{
    let mut r: Vec<Payout> = Vec::new();
    let mut i: usize = 0;
    while i < v.len()
        invariant
            0 <= i <= v.len(),
            views(r@) == views(v@.subrange(0, i as int)),
        decreases v.len() - i,
    {
        proof {
            lemma_take_next(v@, i as int);
            lemma_map_push(v@.subrange(0, i as int), v@[i as int], |p: Payout| p@);
        }
        let c = v[i].copy_record();
        proof {
            lemma_map_push(r@, c, |p: Payout| p@);
        }
        r.push(c);
        i = i + 1;
    }
    proof {
        assert(v@.subrange(0, v@.len() as int) =~= v@);
    }
    r
}

/// The ids of the records of `v`, in order.
fn ids_in(v: &Vec<Payout>) -> (r: Vec<PayoutId>)
    ensures
        r@ == ids_of(views(v@)),
{
    let mut r: Vec<PayoutId> = Vec::new();
    let mut i: usize = 0;
    while i < v.len()
        invariant
            0 <= i <= v.len(),
            r@ =~= ids_of(views(v@.subrange(0, i as int))),
        decreases v.len() - i,
    {
        r.push(v[i].id);
        i = i + 1;
    }
    proof {
        assert(v@.subrange(0, v@.len() as int) =~= v@);
    }
    r
}

/// The index of the first record of `v` with id `id`.
pub(crate) fn position_of(v: &Vec<Payout>, id: PayoutId) -> (r: Option<usize>)
    ensures
        match r {
            Some(i) => {
                &&& i < v@.len()
                &&& v@[i as int].id == id
                &&& forall|j: int| 0 <= j < i ==> v@[j].id != id
                &&& find(views(v@), id) == Some(v@[i as int]@)
            },
            None => {
                &&& forall|j: int| 0 <= j < v@.len() ==> v@[j].id != id
                &&& find(views(v@), id) is None
            },
        },
{
    let mut i: usize = 0;
    proof {
        assert(views(v@).subrange(0, views(v@).len() as int) =~= views(v@));
    }
    while i < v.len()
        invariant
            0 <= i <= v.len(),
            forall|j: int| 0 <= j < i ==> v@[j].id != id,
            find(views(v@), id) == find(views(v@).subrange(i as int, v@.len() as int), id),
        decreases v.len() - i,
    {
        proof {
            let rest = views(v@).subrange(i as int, v@.len() as int);
            assert(rest[0] == v@[i as int]@);
            assert(rest.drop_first() =~= views(v@).subrange(i + 1, v@.len() as int));
        }
        if v[i].id == id {
            return Some(i);
        }
        i = i + 1;
    }
    proof {
        assert(views(v@).subrange(i as int, v@.len() as int).len() == 0);
    }
    None
}

impl Treasury {
    /// A treasury owned by `owner`, with `initial_approvers` registered and
    /// the default approval table.
    pub fn new(owner: Address, initial_approvers: Vec<Address>) -> (r: Treasury)
        ensures
            r@.wf(),
            forall|a: Address| r@.approvers.contains(a) == initial_approvers@.contains(a),
            r@ == (TreasuryView {
                owner,
                approvers: r@.approvers,
                thresholds: default_table(),
                pending: Seq::empty(),
                archive: Seq::empty(),
                assets: Seq::empty(),
                next_id: 0,
                processing: false,
                settle_tick: 0,
            }),
    {
        let thresholds = default_thresholds();
        Treasury::with_thresholds(owner, initial_approvers, thresholds)
    }

    /// A treasury owned by `owner`, with `initial_approvers` registered and
    /// the approval table `thresholds`.
    pub fn with_thresholds(owner: Address, initial_approvers: Vec<Address>, thresholds: Vec<
        Threshold,
    >) -> (r: Treasury)
        ensures
            r@.wf(),
            forall|a: Address| r@.approvers.contains(a) == initial_approvers@.contains(a),
            r@ == (TreasuryView {
                owner,
                approvers: r@.approvers,
                thresholds: thresholds@,
                pending: Seq::empty(),
                archive: Seq::empty(),
                assets: Seq::empty(),
                next_id: 0,
                processing: false,
                settle_tick: 0,
            }),
    {
        let mut approvers: Vec<Address> = Vec::new();
        let mut i: usize = 0;
        while i < initial_approvers.len()
            invariant
                0 <= i <= initial_approvers.len(),
                sorted_addresses(approvers@),
                forall|a: Address| approvers@.contains(a) == initial_approvers@.subrange(0, i as int).contains(a),
            decreases initial_approvers.len() - i,
        {
            let a = initial_approvers[i];
            proof {
                lemma_take_next(initial_approvers@, i as int);
                let pre = initial_approvers@.subrange(0, i as int);
                assert forall|x: Address| pre.push(a).contains(x) == (pre.contains(x) || x == a) by {
                    if pre.push(a).contains(x) {
                        let j = choose|j: int| 0 <= j < pre.push(a).len() && pre.push(a)[j] == x;
                        if j < pre.len() {
                            assert(pre[j] == x);
                        }
                    }
                    if pre.contains(x) {
                        let j = choose|j: int| 0 <= j < pre.len() && pre[j] == x;
                        assert(pre.push(a)[j] == x);
                    }
                    if x == a {
                        assert(pre.push(a)[pre.len() as int] == a);
                    }
                }
            }
            if !contains_address(&approvers, &a) {
                insert_address(&mut approvers, a);
            }
            i = i + 1;
        }
        proof {
            assert(initial_approvers@.subrange(0, initial_approvers@.len() as int) =~= initial_approvers@);
        }
        let r = Treasury {
            owner,
            approvers,
            thresholds,
            pending: Vec::new(),
            archive: Vec::new(),
            assets: Vec::new(),
            next_payout_id: 0,
            processing: false,
            settle_tick: 0,
        };
        proof {
            assert(views(r.pending@) =~= Seq::empty());
            assert(views(r.archive@) =~= Seq::empty());
        }
        r
    }

    /// Whether a settlement is in flight.
    pub fn get_processing(&self) -> (r: bool)
        ensures
            r == self@.processing,
    {
        self.processing
    }

    /// The pending records, in id order.
    pub fn get_pending_payouts(&self) -> (r: Vec<Payout>)
        ensures
            views(r@) == self@.pending,
    {
        copies(&self.pending)
    }

    /// The pending records that may pay at `now`.
    pub fn get_ready_payouts(&self, now: Tick) -> (r: Vec<Payout>)
        ensures
            views(r@) == self@.pending.filter(ready_pred(now)),
    {
        let r = copies_kept(&self.pending, Keep::Ready(now));
        proof {
            assert(keeps_pred(Keep::Ready(now)) =~= ready_pred(now));
        }
        r
    }

    /// The pending records that wait for a later tick than `now`.
    pub fn get_scheduled_payouts(&self, now: Tick) -> (r: Vec<Payout>)
        ensures
            views(r@) == self@.pending.filter(scheduled_pred(now)),
    {
        let r = copies_kept(&self.pending, Keep::Scheduled(now));
        proof {
            assert(keeps_pred(Keep::Scheduled(now)) =~= scheduled_pred(now));
        }
        r
    }

    /// The pending recurring records.
    pub fn get_recurring_payouts(&self) -> (r: Vec<Payout>)
        ensures
            views(r@) == self@.pending.filter(type_pred(PayoutType::Recurring)),
    {
        let r = copies_kept(&self.pending, Keep::OfType(PayoutType::Recurring));
        proof {
            assert(keeps_pred(Keep::OfType(PayoutType::Recurring)) =~= type_pred(PayoutType::Recurring));
        }
        r
    }

    /// The pending vested records.
    pub fn get_vested_payouts(&self) -> (r: Vec<Payout>)
        ensures
            views(r@) == self@.pending.filter(type_pred(PayoutType::Vested)),
    {
        let r = copies_kept(&self.pending, Keep::OfType(PayoutType::Vested));
        proof {
            assert(keeps_pred(Keep::OfType(PayoutType::Vested)) =~= type_pred(PayoutType::Vested));
        }
        r
    }

    /// The archived records that settled.
    pub fn get_completed_payouts(&self) -> (r: Vec<Payout>)
        ensures
            views(r@) == self@.archive.filter(completed_pred()),
    {
        let r = copies_kept(&self.archive, Keep::Completed);
        proof {
            assert(keeps_pred(Keep::Completed) =~= completed_pred());
        }
        r
    }

    /// The archived records created between `start_block` and `end_block`,
    /// both included, in archive order.
    pub fn get_payouts_by_block_range(&self, start_block: Tick, end_block: Tick) -> (r: Vec<
        Payout,
    >)
        ensures
            views(r@) == self@.archive.filter(created_within_pred(start_block, end_block)),
    {
        let r = copies_kept(&self.archive, Keep::CreatedWithin(start_block, end_block));
        proof {
            assert(keeps_pred(Keep::CreatedWithin(start_block, end_block)) =~= created_within_pred(
                start_block,
                end_block,
            ));
        }
        r
    }

    /// The archived records, in the order they were archived.
    pub fn get_past_payouts(&self) -> (r: Vec<Payout>)
        ensures
            views(r@) == self@.archive,
    {
        copies(&self.archive)
    }

    /// The ids of the pending records.
    pub fn get_pending_payout_ids(&self) -> (r: Vec<PayoutId>)
        ensures
            r@ == ids_of(self@.pending),
    {
        ids_in(&self.pending)
    }

    /// The ids of the archived records, in the order they were archived.
    pub fn get_processed_payout_ids(&self) -> (r: Vec<PayoutId>)
        ensures
            r@ == ids_of(self@.archive),
    {
        ids_in(&self.archive)
    }

    /// The ids of the archived records, in the order they were archived.
    pub fn get_past_payout_ids(&self) -> (r: Vec<PayoutId>)
        ensures
            r@ == ids_of(self@.archive),
    {
        ids_in(&self.archive)
    }

    /// The last `count` archived records, most recent first (all of them
    /// when `count` exceeds the archive).
    pub fn get_recent_processed_payouts(&self, count: u32) -> (r: Vec<Payout>)
        ensures
            views(r@) == most_recent(self@.archive, count as nat),
    {
        let len = self.archive.len();
        let n: usize = if (count as usize) < len {
            count as usize
        } else {
            len
        };
        let mut r: Vec<Payout> = Vec::new();
        let mut k: usize = 0;
        while k < n
            invariant
                0 <= k <= n,
                n <= len == self.archive@.len(),
                n == if (count as nat) <= len { count as nat } else { len as nat },
                views(r@) =~= Seq::new(k as nat, |j: int| views(self.archive@)[len - 1 - j]),
            decreases n - k,
        {
            let c = self.archive[len - 1 - k].copy_record();
            proof {
                lemma_map_push(r@, c, |p: Payout| p@);
            }
            r.push(c);
            k = k + 1;
        }
        r
    }

    /// The record with id `id`, pending or archived.
    pub fn get_payout(&self, id: PayoutId) -> (r: Option<Payout>)
        ensures
            opt_view(r) == self@.lookup(id),
    {
        match position_of(&self.pending, id) {
            Some(i) => Some(self.pending[i].copy_record()),
            None => match position_of(&self.archive, id) {
                Some(i) => Some(self.archive[i].copy_record()),
                None => None,
            },
        }
    }

    /// The record with id `id`, pending or archived.
    pub fn get_payout_schedule(&self, id: PayoutId) -> (r: Option<Payout>)
        ensures
            opt_view(r) == self@.lookup(id),
    {
        self.get_payout(id)
    }

    /// The record of each id, in order.
    pub fn get_payouts_batch(&self, payout_ids: Vec<PayoutId>) -> (r: Vec<Option<Payout>>)
        ensures
            r@.len() == payout_ids@.len(),
            forall|i: int| 0 <= i < r@.len() ==> opt_view(#[trigger] r@[i]) == self@.lookup(payout_ids@[i]),
    {
        let mut r: Vec<Option<Payout>> = Vec::new();
        let mut i: usize = 0;
        while i < payout_ids.len()
            invariant
                0 <= i <= payout_ids.len(),
                r@.len() == i,
                forall|j: int| 0 <= j < i ==> opt_view(#[trigger] r@[j]) == self@.lookup(payout_ids@[j]),
            decreases payout_ids.len() - i,
        {
            let p = self.get_payout(payout_ids[i]);
            r.push(p);
            i = i + 1;
        }
        r
    }

    /// The registered approvers, in order of registration.
    pub fn get_treasurers(&self) -> (r: Vec<Address>)
        ensures
            r@ == self@.approvers,
    {
        copy_addresses(&self.approvers)
    }

    /// The approvals a payout of `amount` needs now.
    pub fn get_required_approvals(&self, amount: Amount) -> (r: u32)
        ensures
            r == self@.required(amount),
    {
        required_approvals_in(&self.thresholds, self.approvers.len(), amount)
    }

    /// The number of pending records, the number of archived records, and
    /// the number of ids handed out.
    pub fn get_treasury_stats(&self) -> (r: (usize, usize, PayoutId))
        ensures
            r.0 == self@.pending.len(),
            r.1 == self@.archive.len(),
            r.2 == self@.next_id,
    {
        proof {
            assert(views(self.pending@).len() == self.pending@.len());
            assert(views(self.archive@).len() == self.archive@.len());
        }
        (self.pending.len(), self.archive.len(), self.next_payout_id)
    }
}

} // verus!
