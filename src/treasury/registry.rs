//! Approvers, assets, submission, approval and cancellation.
use vstd::prelude::*;

use super::{insert_address, position_of, Treasury};
use crate::amount::is_valid_precision_amount;
use crate::model::{
    add_vote, cancel_each, first_request_error, lemma_filter_one_out, lemma_map_push,
    lemma_remove_increasing, lemma_take_next, record_wf, request_error, TreasuryView,
    MAX_APPROVALS,
};
use crate::policy::required_approvals_in;
use crate::payout::{
    contains_address, installment_count_of, views, Payout, PayoutKind, PayoutRequest, PayoutView,
};
use crate::types::{
    lemma_address_order, Address, Amount, Error, PayoutCancelled, PayoutId, PayoutStatus, Tick,
};

verus! {

impl Treasury {
    /// Whether `a` is the owner or a registered approver.
    fn may_act(&self, a: &Address) -> (r: bool)
        ensures
            r == self@.may_act(*a),
    {
        *a == self.owner || contains_address(&self.approvers, a)
    }

    /// Why `caller` may not change the payouts now, if that is so.
    fn check_gate(&self, caller: &Address) -> (r: Option<Error>)
        ensures
            r == self@.gate_error(*caller),
    {
        if self.processing {
            Some(Error::Reentrancy)
        } else if !self.may_act(caller) {
            Some(Error::NotAuthorized)
        } else {
            None
        }
    }

    /// Why the owner-only operation is refused for `caller`, if it is.
    fn check_owner(&self, caller: &Address) -> (r: Option<Error>)
        ensures
            r == self@.owner_error(*caller),
    {
        if self.processing {
            Some(Error::Reentrancy)
        } else if *caller != self.owner {
            Some(Error::NotAuthorized)
        } else {
            None
        }
    }

    /// Registers `treasurer` as an approver; only the owner may.
    pub fn add_treasurer(&mut self, caller: Address, treasurer: Address) -> (r: Result<(), Error>)
        requires
            old(self)@.wf(),
        ensures
            final(self)@.wf(),
            match old(self)@.owner_error(caller) {
                Some(e) => r == Err::<(), Error>(e) && final(self)@ == old(self)@,
                None => if old(self)@.approvers.contains(treasurer) {
                    r == Err::<(), Error>(Error::AlreadyExists) && final(self)@ == old(self)@
                } else {
                    &&& r is Ok
                    &&& final(self)@ == (TreasuryView { approvers: final(self)@.approvers, ..old(self)@ })
                    &&& forall|a: Address|
                        final(self)@.approvers.contains(a) == (old(self)@.approvers.contains(a) || a == treasurer)
                },
            },
    {
        if let Some(e) = self.check_owner(&caller) {
            return Err(e);
        }
        if contains_address(&self.approvers, &treasurer) {
            return Err(Error::AlreadyExists);
        }
        insert_address(&mut self.approvers, treasurer);
        Ok(())
    }

    /// Unregisters `treasurer`, if registered; only the owner may.
    pub fn remove_treasurer(&mut self, caller: Address, treasurer: Address) -> (r: Result<(), Error>)
        requires
            old(self)@.wf(),
        ensures
            final(self)@.wf(),
            match old(self)@.owner_error(caller) {
                Some(e) => r == Err::<(), Error>(e) && final(self)@ == old(self)@,
                None => r is Ok && final(self)@ == (TreasuryView {
                    approvers: old(self)@.approvers.filter(|a: Address| a != treasurer),
                    ..old(self)@
                }),
            },
    {
        if let Some(e) = self.check_owner(&caller) {
            return Err(e);
        }
        let mut i: usize = 0;
        while i < self.approvers.len()
            invariant
                0 <= i <= self.approvers.len(),
                old(self)@.owner_error(caller) is None,
                self@ == old(self)@,
                self@.wf(),
                forall|j: int| 0 <= j < i ==> self.approvers@[j] != treasurer,
            decreases self.approvers.len() - i,
        {
            if self.approvers[i] == treasurer {
                proof {
                    let pred = |a: Address| a != treasurer;
                    let s = self.approvers@;
                    assert forall|j: int| 0 <= j < s.len() && j != i implies pred(s[j]) by {
                        lemma_address_order(s[j], s[i as int]);
                        if j < i {
                            assert(s[j].lt(s[i as int]));
                        } else {
                            assert(s[i as int].lt(s[j]));
                        }
                    }
                    lemma_filter_one_out(s, i as int, pred);
                }
                self.approvers.remove(i);
                proof {
                    let s = old(self)@.approvers;
                    let t = s.remove(i as int);
                    assert forall|a: int, b: int| 0 <= a < b < t.len() implies (#[trigger] t[a]).lt(#[trigger] t[b]) by {
                        let a2 = if a < i { a } else { a + 1 };
                        let b2 = if b < i { b } else { b + 1 };
                        assert(t[a] == s[a2] && t[b] == s[b2]);
                    }
                }
                return Ok(());
            }
            i = i + 1;
        }
        proof {
            crate::model::lemma_filter_all(self.approvers@, |a: Address| a != treasurer);
        }
        Ok(())
    }

    /// Records `asset_id` as an asset the treasury tracks (registering it
    /// again changes nothing); only the owner may.
    pub fn register_asset_id(&mut self, caller: Address, asset_id: u32) -> (r: Result<(), Error>)
        requires
            old(self)@.wf(),
        ensures
            final(self)@.wf(),
            match old(self)@.owner_error(caller) {
                Some(e) => r == Err::<(), Error>(e) && final(self)@ == old(self)@,
                None => r is Ok && final(self)@ == (TreasuryView {
                    assets: if old(self)@.assets.contains(asset_id) {
                        old(self)@.assets
                    } else {
                        old(self)@.assets.push(asset_id)
                    },
                    ..old(self)@
                }),
            },
    {
        if let Some(e) = self.check_owner(&caller) {
            return Err(e);
        }
        let mut i: usize = 0;
        while i < self.assets.len()
            invariant
                0 <= i <= self.assets.len(),
                old(self)@.owner_error(caller) is None,
                self@ == old(self)@,
                self@.wf(),
                forall|j: int| 0 <= j < i ==> self.assets@[j] != asset_id,
            decreases self.assets.len() - i,
        {
            if self.assets[i] == asset_id {
                proof {
                    assert(self.assets@[i as int] == asset_id);
                }
                return Ok(());
            }
            i = i + 1;
        }
        self.assets.push(asset_id);
        Ok(())
    }

    /// The registered asset ids, in order of registration.
    pub fn get_registered_assets(&self) -> (r: Vec<u32>)
        ensures
            r@ == self@.assets,
    {
        let mut r: Vec<u32> = Vec::new();
        let mut i: usize = 0;
        while i < self.assets.len()
            invariant
                0 <= i <= self.assets.len(),
                r@ =~= self.assets@.subrange(0, i as int),
            decreases self.assets.len() - i,
        {
            r.push(self.assets[i]);
            i = i + 1;
        }
        r
    }

    /// Why a request for `amount` on schedule `kind` is refused, if it is.
    fn check_request(amount: Amount, kind: &PayoutKind) -> (r: Option<Error>)
        ensures
            r == request_error(amount, *kind),
    {
        if !is_valid_precision_amount(amount) {
            Some(Error::PrecisionLoss)
        } else if installment_count_of(kind) == 0 {
            Some(Error::InvalidFrequency)
        } else {
            None
        }
    }

    /// Appends the new pending record; the checks have passed.
    fn store_new(&mut self, caller: Address, now: Tick, to: Address, amount: Amount, kind: PayoutKind) -> (id: PayoutId)
        requires
            old(self)@.wf(),
            old(self)@.submit_error(caller, amount, kind) is None,
        ensures
            final(self)@.wf(),
            id == old(self)@.next_id,
            final(self)@ == old(self)@.after_submit(caller, now, to, amount, kind),
    {
        let id = self.next_payout_id;
        let mut approvals: Vec<Address> = Vec::new();
        approvals.push(caller);
        let record = Payout {
            id,
            recipient: to,
            kind,
            amount,
            created_tick: now,
            status: PayoutStatus::Pending,
            approvals,
            cancellation_approvals: Vec::new(),
            completed_count: 0,
            installment_count: installment_count_of(&kind),
            released_amount: 0,
        };
        proof {
            assert(record@.approvals =~= seq![caller]);
            assert(record@.cancellation_approvals =~= Seq::<Address>::empty());
            assert(record@ == old(self)@.new_record(caller, now, to, amount, kind));
            lemma_map_push(self.pending@, record, |p: Payout| p@);
        }
        self.pending.push(record);
        self.next_payout_id = id + 1;
        proof {
            let v = final(self)@;
            let o = old(self)@;
            assert(v.pending == o.pending.push(record@));
            assert(v =~= o.after_submit(caller, now, to, amount, kind));
            assert(seq![caller].no_duplicates());
            assert(Seq::<Address>::empty().no_duplicates());
        }
        id
    }

    /// Submits a payout of `amount` to `to` on schedule `kind`, created at
    /// `now`, with `caller`'s approval recorded.
    pub fn submit(&mut self, caller: Address, now: Tick, to: Address, amount: Amount, kind: PayoutKind) -> (r: Result<PayoutId, Error>)
        requires
            old(self)@.wf(),
        ensures
            final(self)@.wf(),
            match old(self)@.submit_error(caller, amount, kind) {
                Some(e) => r == Err::<PayoutId, Error>(e) && final(self)@ == old(self)@,
                None => r == Ok::<PayoutId, Error>(old(self)@.next_id)
                    && final(self)@ == old(self)@.after_submit(caller, now, to, amount, kind),
            },
    {
        if let Some(e) = self.check_gate(&caller) {
            return Err(e);
        }
        if let Some(e) = Treasury::check_request(amount, &kind) {
            return Err(e);
        }
        if self.next_payout_id == u32::MAX {
            return Err(Error::IdSpaceExhausted);
        }
        Ok(self.store_new(caller, now, to, amount, kind))
    }

    /// Submits a one-time payout, due at `scheduled_block` or immediately.
    pub fn add_payout(&mut self, caller: Address, now: Tick, to: Address, amount: Amount, scheduled_block: Option<Tick>) -> (r: Result<PayoutId, Error>)
        requires
            old(self)@.wf(),
        ensures
            final(self)@.wf(),
            ({
                let kind = PayoutKind::OneTime { scheduled_tick: scheduled_block };
                match old(self)@.submit_error(caller, amount, kind) {
                    Some(e) => r == Err::<PayoutId, Error>(e) && final(self)@ == old(self)@,
                    None => r == Ok::<PayoutId, Error>(old(self)@.next_id)
                        && final(self)@ == old(self)@.after_submit(caller, now, to, amount, kind),
                }
            }),
    {
        self.submit(caller, now, to, amount, PayoutKind::OneTime { scheduled_tick: scheduled_block })
    }

    /// Submits `total_payments` payments of `amount_per_payment`,
    /// `interval_blocks` apart, the first at `start_block` or immediately.
    pub fn add_recurring_payout(
        &mut self,
        caller: Address,
        now: Tick,
        to: Address,
        amount_per_payment: Amount,
        start_block: Option<Tick>,
        interval_blocks: Tick,
        total_payments: u32,
    ) -> (r: Result<PayoutId, Error>)
        requires
            old(self)@.wf(),
        ensures
            final(self)@.wf(),
            ({
                let kind = PayoutKind::Recurring {
                    start_tick: start_block,
                    interval: interval_blocks,
                    total_installments: total_payments,
                };
                match old(self)@.submit_error(caller, amount_per_payment, kind) {
                    Some(e) => r == Err::<PayoutId, Error>(e) && final(self)@ == old(self)@,
                    None => r == Ok::<PayoutId, Error>(old(self)@.next_id)
                        && final(self)@ == old(self)@.after_submit(caller, now, to, amount_per_payment, kind),
                }
            }),
    {
        let kind = PayoutKind::Recurring {
            start_tick: start_block,
            interval: interval_blocks,
            total_installments: total_payments,
        };
        self.submit(caller, now, to, amount_per_payment, kind)
    }

    /// Submits `total_amount` vested over `vesting_duration_blocks` in
    /// installments every `vesting_interval_blocks`, the first at
    /// `cliff_block` or immediately.
    pub fn add_vested_payout(
        &mut self,
        caller: Address,
        now: Tick,
        to: Address,
        total_amount: Amount,
        cliff_block: Option<Tick>,
        vesting_duration_blocks: Tick,
        vesting_interval_blocks: Tick,
    ) -> (r: Result<PayoutId, Error>)
        requires
            old(self)@.wf(),
        ensures
            final(self)@.wf(),
            ({
                let kind = PayoutKind::Vested {
                    cliff_tick: cliff_block,
                    vesting_duration: vesting_duration_blocks,
                    vesting_interval: vesting_interval_blocks,
                };
                match old(self)@.submit_error(caller, total_amount, kind) {
                    Some(e) => r == Err::<PayoutId, Error>(e) && final(self)@ == old(self)@,
                    None => r == Ok::<PayoutId, Error>(old(self)@.next_id)
                        && final(self)@ == old(self)@.after_submit(caller, now, to, total_amount, kind),
                }
            }),
    {
        let kind = PayoutKind::Vested {
            cliff_tick: cliff_block,
            vesting_duration: vesting_duration_blocks,
            vesting_interval: vesting_interval_blocks,
        };
        self.submit(caller, now, to, total_amount, kind)
    }

    /// Submits every request, or none: the requests are all checked before
    /// the first is stored.  The ids come back in request order.
    pub fn add_payouts(&mut self, caller: Address, now: Tick, requests: Vec<PayoutRequest>) -> (r: Result<Vec<PayoutId>, Error>)
        requires
            old(self)@.wf(),
        ensures
            final(self)@.wf(),
            match old(self)@.batch_error(caller, requests@) {
                Some(e) => r is Err && r->Err_0 == e && final(self)@ == old(self)@,
                None => r is Ok
                    && r->Ok_0@ == Seq::new(requests@.len(), |k: int| (old(self)@.next_id + k) as PayoutId)
                    && final(self)@ == (TreasuryView {
                        pending: old(self)@.pending + old(self)@.batch_records(caller, now, requests@),
                        next_id: (old(self)@.next_id + requests@.len()) as PayoutId,
                        ..old(self)@
                    }),
            },
    {
        if let Some(e) = self.check_gate(&caller) {
            return Err(e);
        }
        let mut i: usize = 0;
        proof {
            assert(requests@.subrange(0, requests@.len() as int) =~= requests@);
        }
        while i < requests.len()
            invariant
                0 <= i <= requests.len(),
                old(self)@.gate_error(caller) is None,
                self@ == old(self)@,
                self@.wf(),
                first_request_error(requests@) == first_request_error(requests@.subrange(i as int, requests@.len() as int)),
                forall|j: int| 0 <= j < i ==> request_error(#[trigger] requests@[j].amount, requests@[j].kind) is None,
            decreases requests.len() - i,
        {
            proof {
                let rest = requests@.subrange(i as int, requests@.len() as int);
                assert(rest[0] == requests@[i as int]);
                assert(rest.drop_first() =~= requests@.subrange(i + 1, requests@.len() as int));
            }
            if let Some(e) = Treasury::check_request(requests[i].amount, &requests[i].kind) {
                return Err(e);
            }
            i = i + 1;
        }
        proof {
            assert(requests@.subrange(i as int, requests@.len() as int).len() == 0);
        }
        if requests.len() > (u32::MAX - self.next_payout_id) as usize {
            return Err(Error::IdSpaceExhausted);
        }
        let ghost start = self@;
        let mut ids: Vec<PayoutId> = Vec::new();
        let mut k: usize = 0;
        while k < requests.len()
            invariant
                0 <= k <= requests.len(),
                start == old(self)@,
                start.batch_error(caller, requests@) is None,
                forall|j: int| 0 <= j < requests@.len() ==> request_error(#[trigger] requests@[j].amount, requests@[j].kind) is None,
                self@.wf(),
                self@ == (TreasuryView {
                    pending: start.pending + start.batch_records(caller, now, requests@.subrange(0, k as int)),
                    next_id: (start.next_id + k) as PayoutId,
                    ..start
                }),
                ids@ == Seq::new(k as nat, |j: int| (start.next_id + j) as PayoutId),
            decreases requests.len() - k,
        {
            let req = requests[k];
            let id = self.store_new(caller, now, req.to, req.amount, req.kind);
            ids.push(id);
            k = k + 1;
            proof {
                let pre = requests@.subrange(0, k as int);
                let pre0 = requests@.subrange(0, k - 1);
                assert(start.batch_records(caller, now, pre) =~= start.batch_records(caller, now, pre0).push(
                    start.batch_records(caller, now, pre)[k - 1]));
                assert(self@.pending =~= start.pending + start.batch_records(caller, now, pre));
                assert(ids@ =~= Seq::new(k as nat, |j: int| (start.next_id + j) as PayoutId));
            }
        }
        proof {
            assert(requests@.subrange(0, requests@.len() as int) =~= requests@);
        }
        Ok(ids)
    }

    /// Adds `a` to `votes` unless it is there already or `votes` is full.
    fn cast_vote(votes: &mut Vec<Address>, a: Address)
        requires
            old(votes)@.no_duplicates(),
            old(votes)@.len() <= MAX_APPROVALS,
        ensures
            final(votes)@ == add_vote(old(votes)@, a),
            final(votes)@.no_duplicates(),
            final(votes)@.len() <= MAX_APPROVALS,
    {
        if !contains_address(votes, &a) && votes.len() < MAX_APPROVALS {
            votes.push(a);
        }
    }

    /// Replaces the pending record at `i` by `p`, which keeps its id and
    /// status.
    fn replace_pending(&mut self, i: usize, p: Payout)
        requires
            i < old(self).pending@.len(),
            old(self)@.wf(),
            !old(self)@.processing,
            p.id == old(self).pending@[i as int].id,
            p.status == PayoutStatus::Pending,
            record_wf(p@),
        ensures
            final(self)@ == (TreasuryView {
                pending: old(self)@.pending.update(i as int, p@),
                ..old(self)@
            }),
            final(self)@.wf(),
    {
        self.pending.set(i, p);
        proof {
            assert(views(self.pending@) =~= views(old(self).pending@).update(i as int, p@));
            let o = old(self)@;
            let f = final(self)@;
            assert forall|j: int| 0 <= j < f.pending.len() implies f.pending[j].id == o.pending[j].id by {}
            assert forall|j: int| 0 <= j < f.pending.len() implies #[trigger] f.pending[j].status == PayoutStatus::Pending
                && record_wf(f.pending[j]) by {}
        }
    }

    /// Records `caller`'s approval of the pending payout `id` (nothing
    /// changes if it is there already or the approvals are full).
    pub fn approve(&mut self, caller: Address, id: PayoutId) -> (r: Result<(), Error>)
        requires
            old(self)@.wf(),
        ensures
            final(self)@.wf(),
            match old(self)@.vote_error(caller, id) {
                Some(e) => r == Err::<(), Error>(e) && final(self)@ == old(self)@,
                None => r is Ok && final(self)@ == old(self)@.after_approve(caller, id),
            },
    {
        if let Some(e) = self.check_gate(&caller) {
            return Err(e);
        }
        match position_of(&self.pending, id) {
            None => Err(Error::PayoutNotFound),
            Some(i) => {
                let mut p = self.pending[i].copy_record();
                proof {
                    assert(record_wf(views(self.pending@)[i as int]));
                }
                Treasury::cast_vote(&mut p.approvals, caller);
                self.replace_pending(i, p);
                proof {
                    let o = old(self)@;
                    assert forall|j: int| 0 <= j < o.pending.len() && j != i implies o.pending[j].id != id by {
                        assert(o.pending[j].id != o.pending[i as int].id);
                    }
                    assert(final(self)@.pending =~= o.after_approve(caller, id).pending);
                }
                Ok(())
            },
        }
    }

    /// Records `caller`'s vote to cancel the pending payout `id` at `now`.
    /// Once the votes reach what the amount requires, the record leaves the
    /// pending set for the archive, marked cancelled at `now`, and the
    /// cancellation is returned.
    pub fn cancel_payout(&mut self, caller: Address, now: Tick, id: PayoutId) -> (r: Result<Option<PayoutCancelled>, Error>)
        requires
            old(self)@.wf(),
        ensures
            final(self)@.wf(),
            match old(self)@.vote_error(caller, id) {
                Some(e) => r == Err::<Option<PayoutCancelled>, Error>(e) && final(self)@ == old(self)@,
                None => final(self)@ == old(self)@.after_cancel(caller, now, id) && r == Ok::<Option<PayoutCancelled>, Error>(
                    if old(self)@.cancel_passes(caller, id) {
                        Some(PayoutCancelled { payout_id: id })
                    } else {
                        None
                    },
                ),
            },
    {
        if let Some(e) = self.check_gate(&caller) {
            return Err(e);
        }
        match position_of(&self.pending, id) {
            None => Err(Error::PayoutNotFound),
            Some(i) => {
                let ghost o = self@;
                let mut p = self.pending[i].copy_record();
                proof {
                    assert(record_wf(o.pending[i as int]));
                    assert forall|j: int| 0 <= j < o.pending.len() && j != i implies o.pending[j].id != id by {
                        assert(o.pending[j].id != o.pending[i as int].id);
                    }
                }
                Treasury::cast_vote(&mut p.cancellation_approvals, caller);
                proof {
                    assert(p@ == o.voted_record(caller, id));
                }
                let required = required_approvals_in(&self.thresholds, self.approvers.len(), p.amount);
                if p.cancellation_approvals.len() >= required as usize {
                    self.pending.remove(i);
                    p.status = PayoutStatus::Cancelled(now);
                    proof {
                        lemma_map_push(self.archive@, p, |q: Payout| q@);
                    }
                    self.archive.push(p);
                    proof {
                        let f = final(self)@;
                        let pred = |q: PayoutView| q.id != id;
                        lemma_filter_one_out(o.pending, i as int, pred);
                        assert(views(self.pending@) =~= o.pending.remove(i as int));
                        lemma_remove_increasing(o.pending, i as int);
                        assert(f.pending == o.pending.filter(pred));
                        assert(f.archive == o.archive.push(o.voted_record(caller, id).cancelled_at(now)));
                        assert(f =~= o.after_cancel(caller, now, id));
                        assert forall|a: int, b: int| 0 <= a < f.pending.len() && 0 <= b < f.archive.len()
                            implies f.pending[a].id != f.archive[b].id by {
                            assert(o.pending.contains(f.pending[a]));
                        }
                        assert forall|a: int, b: int| 0 <= a < f.archive.len() && 0 <= b < f.archive.len() && a != b
                            implies f.archive[a].id != f.archive[b].id by {
                            if b == f.archive.len() - 1 {
                                assert(o.archive[a].id != o.pending[i as int].id);
                            } else if a == f.archive.len() - 1 {
                                assert(o.archive[b].id != o.pending[i as int].id);
                            }
                        }
                        assert forall|a: int| 0 <= a < f.pending.len() implies #[trigger] f.pending[a].status == PayoutStatus::Pending
                            && record_wf(f.pending[a]) && f.pending[a].id < f.next_id by {
                            assert(o.pending.contains(f.pending[a]));
                        }
                    }
                    Ok(Some(PayoutCancelled { payout_id: id }))
                } else {
                    self.replace_pending(i, p);
                    proof {
                        assert(final(self)@.pending =~= o.after_cancel(caller, now, id).pending);
                    }
                    Ok(None)
                }
            },
        }
    }

    /// Casts `caller`'s cancellation vote on each pending id of
    /// `payout_ids` in turn, passing over ids that are not pending, and
    /// returns the ids whose cancellation went through.
    pub fn cancel_payouts(&mut self, caller: Address, now: Tick, payout_ids: Vec<PayoutId>) -> (r: Result<Vec<PayoutId>, Error>)
        requires
            old(self)@.wf(),
        ensures
            final(self)@.wf(),
            match old(self)@.gate_error(caller) {
                Some(e) => r is Err && r->Err_0 == e && final(self)@ == old(self)@,
                None => r is Ok && (final(self)@, r->Ok_0@) == cancel_each(old(self)@, caller, now, payout_ids@),
            },
    {
        if let Some(e) = self.check_gate(&caller) {
            return Err(e);
        }
        let mut done: Vec<PayoutId> = Vec::new();
        let mut k: usize = 0;
        while k < payout_ids.len()
            invariant
                0 <= k <= payout_ids.len(),
                self@.wf(),
                self@.gate_error(caller) is None,
                self@.owner == old(self)@.owner,
                (self@, done@) == cancel_each(old(self)@, caller, now, payout_ids@.subrange(0, k as int)),
            decreases payout_ids.len() - k,
        {
            proof {
                lemma_take_next(payout_ids@, k as int);
                assert(payout_ids@.subrange(0, k + 1).drop_last() =~= payout_ids@.subrange(0, k as int));
            }
            let id = payout_ids[k];
            match self.cancel_payout(caller, now, id) {
                Ok(Some(_)) => {
                    done.push(id);
                },
                _ => {},
            }
            k = k + 1;
        }
        proof {
            assert(payout_ids@.subrange(0, payout_ids@.len() as int) =~= payout_ids@);
        }
        Ok(done)
    }
}

} // verus!
