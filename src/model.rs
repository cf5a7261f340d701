//! The mathematical model of the treasury: its state as sequences, the
//! invariant every operation keeps, and the settlement step as a function.
use vstd::prelude::*;

use crate::amount::valid_amount;
use crate::payout::{installments_of, ready_at, PayoutKind, PayoutRequest, PayoutView};
use crate::policy::{required_for, Threshold};
use crate::types::{sorted_addresses, Address, Amount, Error, PayoutId, PayoutStatus, Tick};

verus! {

/// How many distinct approvals (or cancellation approvals) a record keeps.
pub const MAX_APPROVALS: usize = 10;

/// The value of a treasury.
pub struct TreasuryView {
    pub owner: Address,
    /// Registered approvers, in increasing address order.
    pub approvers: Seq<Address>,
    /// The approval table, fixed at construction.
    pub thresholds: Seq<Threshold>,
    /// Pending records, in increasing id order.
    pub pending: Seq<PayoutView>,
    /// Settled and cancelled records, in the order they were archived.
    pub archive: Seq<PayoutView>,
    /// Registered asset ids, each once.
    pub assets: Seq<u32>,
    /// The next id to hand out; every id below it has been handed out.
    pub next_id: PayoutId,
    /// The re-entrancy latch: a settlement is in flight.
    pub processing: bool,
    /// The tick of the settlement in flight.
    pub settle_tick: Tick,
}

/// A payment the host must make for a settlement to go through.
#[derive(Clone, Copy, Debug)]
pub struct Transfer {
    pub payout_id: PayoutId,
    pub to: Address,
    pub amount: Amount,
}

pub open spec fn ids_increasing(s: Seq<PayoutView>) -> bool {
    forall|i: int, j: int| 0 <= i < j < s.len() ==> s[i].id < s[j].id
}

pub open spec fn ids_distinct(s: Seq<PayoutView>) -> bool {
    forall|i: int, j: int| 0 <= i < s.len() && 0 <= j < s.len() && i != j ==> s[i].id != s[j].id
}

pub open spec fn ids_below(s: Seq<PayoutView>, n: int) -> bool {
    forall|i: int| 0 <= i < s.len() ==> s[i].id < n
}

pub open spec fn ids_apart(a: Seq<PayoutView>, b: Seq<PayoutView>) -> bool {
    forall|i: int, j: int| 0 <= i < a.len() && 0 <= j < b.len() ==> a[i].id != b[j].id
}

/// The ids of `s`, in order.
pub open spec fn ids_of(s: Seq<PayoutView>) -> Seq<PayoutId> {
    s.map_values(|p: PayoutView| p.id)
}

/// A record's own invariant: distinct approvals within capacity, and no
/// more released than declared.
pub open spec fn record_wf(p: PayoutView) -> bool {
    &&& p.approvals.no_duplicates()
    &&& p.approvals.len() <= MAX_APPROVALS
    &&& p.cancellation_approvals.no_duplicates()
    &&& p.cancellation_approvals.len() <= MAX_APPROVALS
    &&& p.released_amount <= p.amount
}

/// The first record of `s` with id `id`.
pub open spec fn find(s: Seq<PayoutView>, id: PayoutId) -> Option<PayoutView>
    decreases s.len(),
{
    if s.len() == 0 {
        None
    } else if s[0].id == id {
        Some(s[0])
    } else {
        find(s.drop_first(), id)
    }
}

/// The records that settling `s` at `now` spawns, numbered from `first_id`.
pub open spec fn successors_of(s: Seq<PayoutView>, first_id: int, now: Tick) -> Seq<PayoutView>
    decreases s.len(),
{
    if s.len() == 0 {
        Seq::empty()
    } else {
        let r = successors_of(s.drop_last(), first_id, now);
        if s.last().spawns() {
            r.push(s.last().successor((first_id + r.len()) as PayoutId, now))
        } else {
            r
        }
    }
}

/// The sum of what settling each record of `s` pays.
pub open spec fn sum_due(s: Seq<PayoutView>) -> int
    decreases s.len(),
{
    if s.len() == 0 {
        0
    } else {
        sum_due(s.drop_last()) + s.last().due()
    }
}

/// `x`, or the largest amount when `x` does not fit.
pub open spec fn saturate(x: int) -> Amount {
    if x <= u128::MAX {
        x as Amount
    } else {
        u128::MAX
    }
}

/// The payments that settling `s` makes.
pub open spec fn transfers_of(s: Seq<PayoutView>) -> Seq<Transfer> {
    s.map_values(|p: PayoutView| Transfer { payout_id: p.id, to: p.recipient, amount: p.due() })
}

/// The records of `s`, archived as settled at `now`.
pub open spec fn settled_all(s: Seq<PayoutView>, now: Tick) -> Seq<PayoutView> {
    s.map_values(|p: PayoutView| p.settled_at(now))
}

impl TreasuryView {
    /// Whether `a` may submit, approve and cancel payouts.
    pub open spec fn may_act(self, a: Address) -> bool {
        a == self.owner || self.approvers.contains(a)
    }

    /// The approvals a payout of `amount` needs.
    pub open spec fn required(self, amount: Amount) -> u32 {
        required_for(self.thresholds, self.approvers.len(), amount)
    }

    /// Whether settlement at `now` picks `p`: it has the approvals its amount
    /// needs and it is ready.
    pub open spec fn chosen(self, p: PayoutView, now: Tick) -> bool {
        p.approvals.len() >= self.required(p.amount) && ready_at(p.kind, now)
    }

    pub open spec fn chosen_pred(self, now: Tick) -> spec_fn(PayoutView) -> bool {
        |p: PayoutView| self.chosen(p, now)
    }

    pub open spec fn waiting_pred(self, now: Tick) -> spec_fn(PayoutView) -> bool {
        |p: PayoutView| !self.chosen(p, now)
    }

    /// The pending records that settlement at `now` pays, in pending order.
    pub open spec fn selected(self, now: Tick) -> Seq<PayoutView> {
        self.pending.filter(self.chosen_pred(now))
    }

    /// The pending records that settlement at `now` leaves alone.
    pub open spec fn waiting(self, now: Tick) -> Seq<PayoutView> {
        self.pending.filter(self.waiting_pred(now))
    }

    /// The records that settlement at `now` spawns.
    pub open spec fn successors(self, now: Tick) -> Seq<PayoutView> {
        successors_of(self.selected(now), self.next_id as int, now)
    }

    /// Whether the ids that settlement at `now` needs are still free.
    pub open spec fn ids_suffice(self, now: Tick) -> bool {
        self.next_id + self.successors(now).len() <= u32::MAX
    }

    /// The state after settlement at `now` went through: the chosen records
    /// are archived as completed, their successors join the pending ones,
    /// and the latch is released.
    pub open spec fn after_settlement(self, now: Tick) -> TreasuryView {
        TreasuryView {
            pending: self.waiting(now) + self.successors(now),
            archive: self.archive + settled_all(self.selected(now), now),
            next_id: (self.next_id + self.successors(now).len()) as PayoutId,
            processing: false,
            ..self
        }
    }

    /// The record with id `id`, pending or archived.
    pub open spec fn lookup(self, id: PayoutId) -> Option<PayoutView> {
        match find(self.pending, id) {
            Some(p) => Some(p),
            None => find(self.archive, id),
        }
    }

    /// The invariant of a treasury.
    pub open spec fn wf(self) -> bool {
        &&& sorted_addresses(self.approvers)
        &&& self.assets.no_duplicates()
        &&& forall|i: int|
            0 <= i < self.pending.len() ==> (#[trigger] self.pending[i]).status
                == PayoutStatus::Pending && record_wf(self.pending[i])
        &&& forall|i: int|
            0 <= i < self.archive.len() ==> (#[trigger] self.archive[i]).status.is_terminal()
        &&& ids_increasing(self.pending)
        &&& ids_distinct(self.archive)
        &&& ids_apart(self.pending, self.archive)
        &&& ids_below(self.pending, self.next_id as int)
        &&& ids_below(self.archive, self.next_id as int)
        &&& self.processing ==> self.ids_suffice(self.settle_tick)
    }
}

} // verus!

verus! {

/// Filtering a sequence extended by one element.
pub proof fn lemma_filter_push<A>(s: Seq<A>, x: A, pred: spec_fn(A) -> bool)
    ensures
        s.push(x).filter(pred) == (if pred(x) {
            s.filter(pred).push(x)
        } else {
            s.filter(pred)
        }),
{
    reveal(Seq::filter);
    assert(s.push(x).drop_last() =~= s);
}

/// Mapping a sequence extended by one element.
pub proof fn lemma_map_push<A, B>(s: Seq<A>, x: A, f: spec_fn(A) -> B)
    ensures
        s.push(x).map_values(f) == s.map_values(f).push(f(x)),
{
    assert(s.push(x).map_values(f) =~= s.map_values(f).push(f(x)));
}

/// A prefix one longer is the shorter prefix extended by one element.
pub proof fn lemma_take_next<A>(s: Seq<A>, i: int)
    requires
        0 <= i < s.len(),
    ensures
        s.subrange(0, i + 1) == s.subrange(0, i).push(s[i]),
{
    assert(s.subrange(0, i + 1) =~= s.subrange(0, i).push(s[i]));
}

} // verus!

verus! {

/// `votes` with `a` added, unless `a` is already there or `votes` is full.
pub open spec fn add_vote(votes: Seq<Address>, a: Address) -> Seq<Address> {
    if votes.contains(a) || votes.len() >= MAX_APPROVALS {
        votes
    } else {
        votes.push(a)
    }
}

/// Why a request for `amount` on schedule `kind` is refused, if it is:
/// first the amount, then the schedule.
pub open spec fn request_error(amount: Amount, kind: PayoutKind) -> Option<Error> {
    if !valid_amount(amount as int) {
        Some(Error::PrecisionLoss)
    } else if installments_of(kind) == 0 {
        Some(Error::InvalidFrequency)
    } else {
        None
    }
}

/// The error of the first refused request of `reqs`, if any.
pub open spec fn first_request_error(reqs: Seq<PayoutRequest>) -> Option<Error>
    decreases reqs.len(),
{
    if reqs.len() == 0 {
        None
    } else {
        match request_error(reqs[0].amount, reqs[0].kind) {
            Some(e) => Some(e),
            None => first_request_error(reqs.drop_first()),
        }
    }
}

impl TreasuryView {
    /// Why the caller may not change the payouts now, if that is so.
    pub open spec fn gate_error(self, caller: Address) -> Option<Error> {
        if self.processing {
            Some(Error::Reentrancy)
        } else if !self.may_act(caller) {
            Some(Error::NotAuthorized)
        } else {
            None
        }
    }

    /// Why the owner-only operation is refused for `caller`, if it is.
    pub open spec fn owner_error(self, caller: Address) -> Option<Error> {
        if self.processing {
            Some(Error::Reentrancy)
        } else if caller != self.owner {
            Some(Error::NotAuthorized)
        } else {
            None
        }
    }

    /// Why a submission is refused, if it is.
    pub open spec fn submit_error(self, caller: Address, amount: Amount, kind: PayoutKind) -> Option<Error> {
        match self.gate_error(caller) {
            Some(e) => Some(e),
            None => match request_error(amount, kind) {
                Some(e) => Some(e),
                None => if self.next_id == u32::MAX {
                    Some(Error::IdSpaceExhausted)
                } else {
                    None
                },
            },
        }
    }

    /// The record a submission creates: pending, under the next id, with the
    /// submitter's approval.
    pub open spec fn new_record(self, caller: Address, now: Tick, to: Address, amount: Amount, kind: PayoutKind) -> PayoutView {
        PayoutView {
            id: self.next_id,
            recipient: to,
            kind,
            amount,
            created_tick: now,
            status: PayoutStatus::Pending,
            approvals: seq![caller],
            cancellation_approvals: Seq::empty(),
            completed_count: 0,
            installment_count: installments_of(kind) as u32,
            released_amount: 0,
        }
    }

    pub open spec fn after_submit(self, caller: Address, now: Tick, to: Address, amount: Amount, kind: PayoutKind) -> TreasuryView {
        TreasuryView {
            pending: self.pending.push(self.new_record(caller, now, to, amount, kind)),
            next_id: (self.next_id + 1) as PayoutId,
            ..self
        }
    }

    /// Why a batch submission is refused, if it is: the caller, then the
    /// first refused request, then the ids left.
    pub open spec fn batch_error(self, caller: Address, reqs: Seq<PayoutRequest>) -> Option<Error> {
        match self.gate_error(caller) {
            Some(e) => Some(e),
            None => match first_request_error(reqs) {
                Some(e) => Some(e),
                None => if self.next_id + reqs.len() > u32::MAX {
                    Some(Error::IdSpaceExhausted)
                } else {
                    None
                },
            },
        }
    }

    /// The records a batch submission creates, one per request, numbered
    /// from the next id.
    pub open spec fn batch_records(self, caller: Address, now: Tick, reqs: Seq<PayoutRequest>) -> Seq<PayoutView> {
        Seq::new(
            reqs.len(),
            |k: int|
                PayoutView {
                    id: (self.next_id + k) as PayoutId,
                    ..self.new_record(caller, now, reqs[k].to, reqs[k].amount, reqs[k].kind)
                },
        )
    }

    /// Why an approval or a cancellation vote on `id` is refused, if it is.
    pub open spec fn vote_error(self, caller: Address, id: PayoutId) -> Option<Error> {
        match self.gate_error(caller) {
            Some(e) => Some(e),
            None => if find(self.pending, id) is None {
                Some(Error::PayoutNotFound)
            } else {
                None
            },
        }
    }

    pub open spec fn after_approve(self, caller: Address, id: PayoutId) -> TreasuryView {
        TreasuryView {
            pending: self.pending.map_values(
                |p: PayoutView|
                    if p.id == id {
                        PayoutView { approvals: add_vote(p.approvals, caller), ..p }
                    } else {
                        p
                    },
            ),
            ..self
        }
    }

    /// The pending record `id` with `caller`'s cancellation vote added.
    pub open spec fn voted_record(self, caller: Address, id: PayoutId) -> PayoutView {
        let p = find(self.pending, id).unwrap();
        PayoutView { cancellation_approvals: add_vote(p.cancellation_approvals, caller), ..p }
    }

    /// Whether `caller`'s vote brings the cancellation votes of `id` to what
    /// its amount requires.
    pub open spec fn cancel_passes(self, caller: Address, id: PayoutId) -> bool {
        let p = self.voted_record(caller, id);
        p.cancellation_approvals.len() >= self.required(p.amount)
    }

    /// The state after `caller` voted to cancel the pending record `id` at
    /// `now`: once the votes suffice the record is archived as cancelled.
    pub open spec fn after_cancel(self, caller: Address, now: Tick, id: PayoutId) -> TreasuryView {
        if self.cancel_passes(caller, id) {
            TreasuryView {
                pending: self.pending.filter(|p: PayoutView| p.id != id),
                archive: self.archive.push(self.voted_record(caller, id).cancelled_at(now)),
                ..self
            }
        } else {
            TreasuryView {
                pending: self.pending.map_values(
                    |p: PayoutView|
                        if p.id == id {
                            self.voted_record(caller, id)
                        } else {
                            p
                        },
                ),
                ..self
            }
        }
    }
}

/// The state after `caller` voted to cancel each pending id of `ids` in
/// turn (ids that are not pending are passed over), and the ids whose
/// cancellation went through.
pub open spec fn cancel_each(t: TreasuryView, caller: Address, now: Tick, ids: Seq<PayoutId>) -> (TreasuryView, Seq<PayoutId>)
    decreases ids.len(),
{
    if ids.len() == 0 {
        (t, Seq::empty())
    } else {
        let (u, done) = cancel_each(t, caller, now, ids.drop_last());
        let id = ids.last();
        if find(u.pending, id) is None {
            (u, done)
        } else if u.cancel_passes(caller, id) {
            (u.after_cancel(caller, now, id), done.push(id))
        } else {
            (u.after_cancel(caller, now, id), done)
        }
    }
}

} // verus!

verus! {

/// Filtering keeps all of a sequence whose elements all pass.
pub proof fn lemma_filter_all<A>(s: Seq<A>, pred: spec_fn(A) -> bool)
    requires
        forall|j: int| 0 <= j < s.len() ==> pred(s[j]),
    ensures
        s.filter(pred) == s,
    decreases s.len(),
{
    reveal(Seq::filter);
    if s.len() > 0 {
        lemma_filter_all(s.drop_last(), pred);
        assert(s.drop_last().push(s.last()) =~= s);
    }
}

/// Filtering out the one element that fails is removing it.
pub proof fn lemma_filter_one_out<A>(s: Seq<A>, i: int, pred: spec_fn(A) -> bool)
    requires
        0 <= i < s.len(),
        !pred(s[i]),
        forall|j: int| 0 <= j < s.len() && j != i ==> pred(s[j]),
    ensures
        s.filter(pred) == s.remove(i),
{
    let a = s.subrange(0, i);
    let m = seq![s[i]];
    let b = s.subrange(i + 1, s.len() as int);
    assert(s =~= a + m + b);
    Seq::filter_distributes_over_add(a + m, b, pred);
    Seq::filter_distributes_over_add(a, m, pred);
    lemma_filter_all(a, pred);
    lemma_filter_all(b, pred);
    assert(m =~= Seq::<A>::empty().push(s[i]));
    lemma_filter_push(Seq::<A>::empty(), s[i], pred);
    reveal(Seq::filter);
    assert(m.filter(pred) =~= Seq::<A>::empty());
    assert(s.remove(i) =~= a + b);
}

/// What a filter keeps comes from the filtered sequence and passes.
pub proof fn lemma_filter_from<A>(s: Seq<A>, pred: spec_fn(A) -> bool, k: int)
    requires
        0 <= k < s.filter(pred).len(),
    ensures
        pred(s.filter(pred)[k]),
        s.contains(s.filter(pred)[k]),
{
    broadcast use vstd::seq_lib::group_filter_ensures;
    s.lemma_filter_contains_rev(pred, s.filter(pred)[k]);
    assert(s.filter(pred).contains(s.filter(pred)[k]));
}

/// A filter of records in increasing id order is in increasing id order.
pub proof fn lemma_filter_increasing(s: Seq<PayoutView>, pred: spec_fn(PayoutView) -> bool)
    requires
        ids_increasing(s),
    ensures
        ids_increasing(s.filter(pred)),
    decreases s.len(),
{
    reveal(Seq::filter);
    if s.len() > 0 {
        let d = s.drop_last();
        assert(ids_increasing(d));
        lemma_filter_increasing(d, pred);
        if pred(s.last()) {
            let f = d.filter(pred);
            assert forall|k: int| 0 <= k < f.len() implies f[k].id < s.last().id by {
                lemma_filter_from(d, pred, k);
                let j = choose|j: int| 0 <= j < d.len() && d[j] == f[k];
                assert(s[j] == f[k]);
            }
        }
    }
}

} // verus!

verus! {

/// Removing a record keeps the others in increasing id order.
pub proof fn lemma_remove_increasing(s: Seq<PayoutView>, i: int)
    requires
        ids_increasing(s),
        0 <= i < s.len(),
    ensures
        ids_increasing(s.remove(i)),
        forall|j: int| 0 <= j < s.remove(i).len() ==> #[trigger] s.remove(i)[j].id != s[i].id,
        forall|j: int| 0 <= j < s.remove(i).len() ==> s.contains(#[trigger] s.remove(i)[j]),
{
    let t = s.remove(i);
    assert forall|a: int| 0 <= a < t.len() implies t[a] == s[if a < i { a } else { a + 1 }] by {}
    assert forall|a: int| 0 <= a < t.len() implies s.contains(#[trigger] t[a]) by {
        assert(t[a] == s[if a < i { a } else { a + 1 }]);
    }
}

} // verus!

verus! {

/// Settling one more record spawns one more successor exactly when it
/// spawns, numbered after the others.
pub proof fn lemma_successors_push(s: Seq<PayoutView>, x: PayoutView, first_id: int, now: Tick)
    ensures
        successors_of(s.push(x), first_id, now) == (if x.spawns() {
            successors_of(s, first_id, now).push(
                x.successor((first_id + successors_of(s, first_id, now).len()) as PayoutId, now),
            )
        } else {
            successors_of(s, first_id, now)
        }),
{
    assert(s.push(x).drop_last() =~= s);
}

/// The successors of a filtered prefix are no more than those of the
/// whole filtered sequence.
pub proof fn lemma_successors_grow(s: Seq<PayoutView>, i: int, pred: spec_fn(PayoutView) -> bool, first_id: int, now: Tick)
    requires
        0 <= i <= s.len(),
    ensures
        successors_of(s.subrange(0, i).filter(pred), first_id, now).len()
            <= successors_of(s.filter(pred), first_id, now).len(),
    decreases s.len() - i,
{
    if i < s.len() {
        lemma_successors_grow(s, i + 1, pred, first_id, now);
        lemma_take_next(s, i);
        lemma_filter_push(s.subrange(0, i), s[i], pred);
        lemma_successors_push(s.subrange(0, i).filter(pred), s[i], first_id, now);
    } else {
        assert(s.subrange(0, i) =~= s);
    }
}

/// The sum of what a sequence extended by one record pays.
pub proof fn lemma_sum_due_push(s: Seq<PayoutView>, x: PayoutView)
    ensures
        sum_due(s.push(x)) == sum_due(s) + x.due(),
        sum_due(s) >= 0,
    decreases s.len(),
{
    assert(s.push(x).drop_last() =~= s);
    if s.len() > 0 {
        lemma_sum_due_push(s.drop_last(), s.last());
        assert(s.drop_last().push(s.last()) =~= s);
    }
}

} // verus!

verus! {

/// Successors are numbered from `first_id` on, pending, and keep the
/// record invariant.
pub proof fn lemma_successors_facts(s: Seq<PayoutView>, first_id: int, now: Tick)
    requires
        0 <= first_id,
        first_id + successors_of(s, first_id, now).len() <= u32::MAX,
        forall|j: int| 0 <= j < s.len() ==> record_wf(#[trigger] s[j]),
    ensures
        ({
            let n = successors_of(s, first_id, now);
            forall|k: int|
                0 <= k < n.len() ==> (#[trigger] n[k]).id == first_id + k && n[k].status
                    == PayoutStatus::Pending && record_wf(n[k])
        }),
    decreases s.len(),
{
    if s.len() > 0 {
        let d = s.drop_last();
        let x = s.last();
        assert(record_wf(s[s.len() - 1]));
        assert forall|j: int| 0 <= j < d.len() implies record_wf(#[trigger] d[j]) by {
            assert(d[j] == s[j]);
        }
        let r = successors_of(d, first_id, now);
        lemma_successors_facts(d, first_id, now);
        if x.spawns() {
            let y = x.successor((first_id + r.len()) as PayoutId, now);
            assert(y.approvals == x.approvals);
            assert(y.cancellation_approvals == x.cancellation_approvals);
            assert(y.released_amount <= y.amount);
        }
    }
}

/// The id of a record of a sequence in increasing id order determines it.
pub proof fn lemma_same_id(s: Seq<PayoutView>, x: PayoutView, y: PayoutView)
    requires
        ids_increasing(s),
        s.contains(x),
        s.contains(y),
        x.id == y.id,
    ensures
        x == y,
{
    let i = choose|i: int| 0 <= i < s.len() && s[i] == x;
    let j = choose|j: int| 0 <= j < s.len() && s[j] == y;
    if i < j {
        assert(s[i].id < s[j].id);
    } else if j < i {
        assert(s[j].id < s[i].id);
    }
}

/// Settlement keeps the invariant.
pub proof fn lemma_settlement_wf(t: TreasuryView, now: Tick)
    requires
        t.wf(),
        t.processing,
        now == t.settle_tick,
    ensures
        t.after_settlement(now).wf(),
{
    let p = t.pending;
    let pred = t.chosen_pred(now);
    let wpred = t.waiting_pred(now);
    let sel = t.selected(now);
    let w = t.waiting(now);
    let n = t.successors(now);
    let u = t.after_settlement(now);
    let done = settled_all(sel, now);
    lemma_filter_increasing(p, pred);
    lemma_filter_increasing(p, wpred);
    assert forall|k: int| 0 <= k < sel.len() implies p.contains(#[trigger] sel[k]) && t.chosen(sel[k], now) by {
        lemma_filter_from(p, pred, k);
    }
    assert forall|k: int| 0 <= k < w.len() implies p.contains(#[trigger] w[k]) && !t.chosen(w[k], now) by {
        lemma_filter_from(p, wpred, k);
    }
    assert forall|k: int| 0 <= k < sel.len() implies record_wf(#[trigger] sel[k]) && sel[k].id < t.next_id by {
        let j = choose|j: int| 0 <= j < p.len() && p[j] == sel[k];
        assert(record_wf(p[j]));
    }
    assert forall|k: int| 0 <= k < w.len() implies record_wf(#[trigger] w[k]) && w[k].id < t.next_id
        && w[k].status == PayoutStatus::Pending by {
        let j = choose|j: int| 0 <= j < p.len() && p[j] == w[k];
        assert(record_wf(p[j]));
    }
    lemma_successors_facts(sel, t.next_id as int, now);
    let np = w + n;
    let na = t.archive + done;
    assert forall|i: int| 0 <= i < np.len() implies (#[trigger] np[i]).status == PayoutStatus::Pending
        && record_wf(np[i]) && np[i].id < u.next_id by {
        if i < w.len() {
            assert(np[i] == w[i]);
        } else {
            assert(np[i] == n[i - w.len()]);
        }
    }
    assert forall|i: int| 0 <= i < na.len() implies (#[trigger] na[i]).status.is_terminal()
        && na[i].id < u.next_id by {
        if i < t.archive.len() {
            assert(na[i] == t.archive[i]);
        } else {
            assert(na[i] == sel[i - t.archive.len()].settled_at(now));
        }
    }
    assert forall|i: int, j: int| 0 <= i < j < np.len() implies np[i].id < np[j].id by {
        if j < w.len() {
            assert(np[i] == w[i] && np[j] == w[j]);
        } else if i < w.len() {
            assert(np[i] == w[i] && np[j] == n[j - w.len()]);
        } else {
            assert(np[i] == n[i - w.len()] && np[j] == n[j - w.len()]);
        }
    }
    assert forall|i: int, j: int| 0 <= i < na.len() && 0 <= j < na.len() && i != j implies na[i].id
        != na[j].id by {
        let al = t.archive.len() as int;
        if i < al && j < al {
            assert(na[i] == t.archive[i] && na[j] == t.archive[j]);
        } else if i >= al && j >= al {
            assert(na[i].id == sel[i - al].id && na[j].id == sel[j - al].id);
            if i < j {
                assert(sel[i - al].id < sel[j - al].id);
            } else {
                assert(sel[j - al].id < sel[i - al].id);
            }
        } else if i < al {
            let q = choose|q: int| 0 <= q < p.len() && p[q] == sel[j - al];
            assert(na[i] == t.archive[i] && na[j].id == p[q].id);
        } else {
            let q = choose|q: int| 0 <= q < p.len() && p[q] == sel[i - al];
            assert(na[j] == t.archive[j] && na[i].id == p[q].id);
        }
    }
    assert forall|i: int, j: int| 0 <= i < np.len() && 0 <= j < na.len() implies np[i].id != na[j].id by {
        let al = t.archive.len() as int;
        if i < w.len() {
            let q = choose|q: int| 0 <= q < p.len() && p[q] == w[i];
            assert(np[i] == p[q]);
            if j < al {
                assert(na[j] == t.archive[j]);
            } else {
                assert(na[j].id == sel[j - al].id);
                if w[i].id == sel[j - al].id {
                    lemma_same_id(p, w[i], sel[j - al]);
                }
            }
        } else {
            assert(np[i] == n[i - w.len()]);
            if j >= al {
                assert(na[j].id == sel[j - al].id);
            }
        }
    }
    assert(u.pending == np);
    assert(u.archive == na);
}

} // verus!
