//! Settlement, in two steps around the host's transfers: `begin_settlement`
//! sets the latch and says which payments to make; `finish_settlement`
//! applies the settlement once they all went through, `abort_settlement`
//! drops it when one failed.
use vstd::prelude::*;

use super::Treasury;
use crate::model::{
    ids_of, lemma_filter_push, lemma_map_push, lemma_successors_grow, lemma_successors_push,
    lemma_sum_due_push, lemma_take_next, saturate, settled_all, successors_of, sum_due,
    transfers_of, Transfer, TreasuryView,
};
use crate::payout::{calculate_payout_amount, is_ready, spawns_successor, views, Payout, PayoutView};
use crate::policy::required_approvals_in;
use crate::types::{Amount, Error, PayoutId, PayoutStatus, Tick};

verus! {

impl Treasury {
    /// Whether settlement at `now` picks `p`.
    fn is_chosen(&self, p: &Payout, now: Tick) -> (r: bool)
        ensures
            r == self@.chosen(p@, now),
    {
        let required = required_approvals_in(&self.thresholds, self.approvers.len(), p.amount);
        p.approvals.len() >= required as usize && is_ready(p, now)
    }

    /// Starts settlement at `now`.  Unless a settlement is already in flight
    /// or the ids its successors need are not left, sets the latch and
    /// returns the payments to make, one per chosen record in pending order;
    /// nothing else changes until `finish_settlement` or `abort_settlement`.
    pub fn begin_settlement(&mut self, now: Tick) -> (r: Result<Vec<Transfer>, Error>)
        requires
            old(self)@.wf(),
        ensures
            final(self)@.wf(),
            old(self)@.processing ==> r == Err::<Vec<Transfer>, Error>(Error::Reentrancy)
                && final(self)@ == old(self)@,
            !old(self)@.processing && !old(self)@.ids_suffice(now) ==> r == Err::<Vec<Transfer>, Error>(
                Error::IdSpaceExhausted,
            ) && final(self)@ == old(self)@,
            !old(self)@.processing && old(self)@.ids_suffice(now) ==> r is Ok
                && r->Ok_0@ == transfers_of(old(self)@.selected(now))
                && final(self)@ == (TreasuryView { processing: true, settle_tick: now, ..old(self)@ }),
    {
        if self.processing {
            return Err(Error::Reentrancy);
        }
        let ghost o = self@;
        let ghost pred = o.chosen_pred(now);
        let mut transfers: Vec<Transfer> = Vec::new();
        let mut spawning: usize = 0;
        let mut i: usize = 0;
        while i < self.pending.len()
            invariant
                0 <= i <= self.pending.len(),
                self@ == o,
                pred == o.chosen_pred(now),
                transfers@ == transfers_of(o.pending.subrange(0, i as int).filter(pred)),
                spawning == successors_of(o.pending.subrange(0, i as int).filter(pred), o.next_id as int, now).len(),
                spawning <= i,
            decreases self.pending.len() - i,
        {
            proof {
                lemma_take_next(o.pending, i as int);
                lemma_filter_push(o.pending.subrange(0, i as int), o.pending[i as int], pred);
                lemma_successors_push(o.pending.subrange(0, i as int).filter(pred), o.pending[i as int], o.next_id as int, now);
                assert(o.pending.subrange(0, i as int).len() == i);
                assert(o.pending[i as int] == self.pending@[i as int]@);
            }
            if self.is_chosen(&self.pending[i], now) {
                let p = &self.pending[i];
                let t = Transfer { payout_id: p.id, to: p.recipient, amount: calculate_payout_amount(p) };
                proof {
                    lemma_map_push(o.pending.subrange(0, i as int).filter(pred), p@,
                        |q: PayoutView| Transfer { payout_id: q.id, to: q.recipient, amount: q.due() });
                }
                transfers.push(t);
                if spawns_successor(p) {
                    spawning = spawning + 1;
                }
            }
            i = i + 1;
        }
        proof {
            assert(o.pending.subrange(0, o.pending.len() as int) =~= o.pending);
        }
        if spawning > (u32::MAX - self.next_payout_id) as usize {
            return Err(Error::IdSpaceExhausted);
        }
        self.processing = true;
        self.settle_tick = now;
        proof {
            let f = self@;
            assert(f == (TreasuryView { processing: true, settle_tick: now, ..o }));
            assert(f.chosen_pred(now) =~= o.chosen_pred(now));
            assert(f.selected(now) == o.selected(now));
            assert(f.successors(now) == o.successors(now));
        }
        Ok(transfers)
    }

    /// Drops the settlement in flight after a payment failed: the latch is
    /// released and nothing else changes.
    pub fn abort_settlement(&mut self) -> (r: Error)
        requires
            old(self)@.wf(),
        ensures
            final(self)@.wf(),
            r == Error::InsufficientBalance,
            final(self)@ == (TreasuryView { processing: false, ..old(self)@ }),
    {
        self.processing = false;
        Error::InsufficientBalance
    }

    /// Applies the settlement in flight once all its payments went through:
    /// each chosen record is archived as completed at the settlement tick,
    /// the successors of recurring and vested installments join the pending
    /// records under fresh ids, and the latch is released.  Returns the
    /// settled ids in pending order and the total paid (saturating).
    pub fn finish_settlement(&mut self) -> (r: (Vec<PayoutId>, Amount))
        requires
            old(self)@.wf(),
            old(self)@.processing,
        ensures
            final(self)@.wf(),
            final(self)@ == old(self)@.after_settlement(old(self)@.settle_tick),
            r.0@ == ids_of(old(self)@.selected(old(self)@.settle_tick)),
            r.1 == saturate(sum_due(old(self)@.selected(old(self)@.settle_tick))),
    {
        let now = self.settle_tick;
        let ghost o = self@;
        let ghost pred = o.chosen_pred(now);
        let ghost wpred = o.waiting_pred(now);
        let mut waiting: Vec<Payout> = Vec::new();
        let mut spawned: Vec<Payout> = Vec::new();
        let mut settled: Vec<PayoutId> = Vec::new();
        let mut total: Amount = 0;
        let mut next: PayoutId = self.next_payout_id;
        let mut i: usize = 0;
        proof {
            lemma_successors_grow(o.pending, 0, pred, o.next_id as int, now);
        }
        while i < self.pending.len()
            invariant
                0 <= i <= self.pending.len(),
                o.wf(),
                o.processing,
                now == o.settle_tick,
                pred == o.chosen_pred(now),
                wpred == o.waiting_pred(now),
                self@ == (TreasuryView {
                    archive: o.archive + settled_all(o.pending.subrange(0, i as int).filter(pred), now),
                    ..o
                }),
                views(waiting@) == o.pending.subrange(0, i as int).filter(wpred),
                views(spawned@) == successors_of(o.pending.subrange(0, i as int).filter(pred), o.next_id as int, now),
                next == o.next_id + spawned@.len(),
                settled@ == ids_of(o.pending.subrange(0, i as int).filter(pred)),
                total == saturate(sum_due(o.pending.subrange(0, i as int).filter(pred))),
            decreases self.pending.len() - i,
        {
            let ghost pre = o.pending.subrange(0, i as int);
            let ghost x = o.pending[i as int];
            proof {
                lemma_take_next(o.pending, i as int);
                lemma_filter_push(pre, x, pred);
                lemma_filter_push(pre, x, wpred);
                lemma_successors_push(pre.filter(pred), x, o.next_id as int, now);
                lemma_sum_due_push(pre.filter(pred), x);
                lemma_successors_grow(o.pending, i + 1, pred, o.next_id as int, now);
                assert(x == self.pending@[i as int]@);
                assert(views(self.archive@) == o.archive + settled_all(pre.filter(pred), now));
            }
            if self.is_chosen(&self.pending[i], now) {
                let p = self.pending[i].copy_record();
                let due = calculate_payout_amount(&p);
                total = total.saturating_add(due);
                settled.push(p.id);
                if spawns_successor(&p) {
                    let s = p.next_installment(next, now);
                    proof {
                        lemma_map_push(spawned@, s, |q: Payout| q@);
                    }
                    spawned.push(s);
                    next = next + 1;
                }
                let mut done = p;
                done.status = PayoutStatus::Completed(now);
                proof {
                    lemma_map_push(self.archive@, done, |q: Payout| q@);
                    lemma_map_push(pre.filter(pred), x, |q: PayoutView| q.settled_at(now));
                    lemma_map_push(pre.filter(pred), x, |q: PayoutView| q.id);
                    assert(o.archive + settled_all(pre.filter(pred), now).push(x.settled_at(now))
                        =~= (o.archive + settled_all(pre.filter(pred), now)).push(x.settled_at(now)));
                }
                self.archive.push(done);
            } else {
                let p = self.pending[i].copy_record();
                proof {
                    lemma_map_push(waiting@, p, |q: Payout| q@);
                }
                waiting.push(p);
            }
            i = i + 1;
            proof {
                assert(self@ =~= (TreasuryView {
                    archive: o.archive + settled_all(o.pending.subrange(0, i as int).filter(pred), now),
                    ..o
                }));
            }
        }
        proof {
            assert(o.pending.subrange(0, o.pending.len() as int) =~= o.pending);
        }
        let ghost w = waiting@;
        let ghost sp = spawned@;
        waiting.append(&mut spawned);
        self.pending = waiting;
        self.next_payout_id = next;
        self.processing = false;
        proof {
            assert(views(w + sp) =~= views(w) + views(sp));
            assert(self@ =~= o.after_settlement(now));
            crate::model::lemma_settlement_wf(o, now);
        }
        (settled, total)
    }
}

} // verus!
