//! Properties the library guarantees across calls, proved from the
//! contracts of its operations.
use vstd::prelude::*;

use crate::amount::{valid_amount, PRECISION_FACTOR};
use crate::model::{find, record_wf, sum_due, TreasuryView, MAX_APPROVALS};
use crate::payout::{ready_at, PayoutKind, PayoutView};
use crate::types::{Address, Amount, PayoutId, Tick};

verus! {

/// Every positive multiple of the precision factor is a valid amount.
pub proof fn law_precision_multiples(k: int)
    requires
        k >= 1,
    ensures
        valid_amount(PRECISION_FACTOR * k),
{
    assert((PRECISION_FACTOR * k) % (PRECISION_FACTOR as int) == 0) by (nonlinear_arith)
        requires k >= 1;
    assert(PRECISION_FACTOR * k >= PRECISION_FACTOR) by (nonlinear_arith)
        requires k >= 1;
}

/// No amount strictly between two multiples of the precision factor is
/// valid.
pub proof fn law_precision_remainders(k: int, r: int)
    requires
        k >= 0,
        0 < r < PRECISION_FACTOR,
    ensures
        !valid_amount(PRECISION_FACTOR * k + r),
{
    assert((PRECISION_FACTOR * k + r) % (PRECISION_FACTOR as int) == r) by (nonlinear_arith)
        requires k >= 0, 0 < r < PRECISION_FACTOR;
}

/// A vested schedule pays out exactly its declared total.  Follow the
/// records of a schedule of `n` installments from its first one, each the
/// successor of the one before (under any id, settled at any tick): every
/// installment but the last spawns the next, the last spawns none, and what
/// the `n` installments pay sums to the total, the rounding remainder
/// included.
pub proof fn law_vesting_conserves_total(chain: Seq<PayoutView>, ticks: Seq<Tick>)
    requires
        chain.len() >= 1,
        ticks.len() == chain.len() - 1,
        chain[0].kind is Vested,
        chain[0].amount > 0,
        chain[0].completed_count == 0,
        chain[0].released_amount == 0,
        chain[0].installment_count == chain.len(),
        forall|j: int|
            0 <= j < chain.len() - 1 ==> #[trigger] chain[j + 1] == chain[j].successor(
                chain[j + 1].id,
                ticks[j],
            ),
    ensures
        forall|j: int| 0 <= j < chain.len() - 1 ==> (#[trigger] chain[j]).spawns(),
        !chain.last().spawns(),
        sum_due(chain) == chain[0].amount,
{
    let n = chain.len() as int;
    let total = chain[0].amount as int;
    let share = total / n;
    assert(share * n <= total) by (nonlinear_arith)
        requires share == total / n, n >= 1, total > 0;
    assert forall|j: int| 0 <= j < n implies {
        &&& (#[trigger] chain[j]).kind is Vested
        &&& chain[j].amount == total
        &&& chain[j].installment_count == n
        &&& chain[j].completed_count == j
        &&& chain[j].released_amount == j * share
        &&& sum_due(chain.subrange(0, j)) == j * share
    } by {
        lemma_vesting_prefix(chain, ticks, j, share);
    }
    assert forall|j: int| 0 <= j < n - 1 implies (#[trigger] chain[j]).spawns() by {
        lemma_vesting_prefix(chain, ticks, j, share);
        lemma_vesting_step(n, j, share, total);
        assert(chain[j].remaining() == n - j);
        assert(chain[j].due() == share);
        assert((j + 1) * share == j * share + share) by (nonlinear_arith);
    }
    let last = chain[n - 1];
    assert(chain.subrange(0, n - 1) =~= chain.drop_last());
    assert((n - 1) * share <= total) by (nonlinear_arith)
        requires share * n <= total, n >= 1, share >= 0;
}

/// The installments before the `j`-th each pay an equal share.
proof fn lemma_vesting_prefix(chain: Seq<PayoutView>, ticks: Seq<Tick>, j: int, share: int)
    requires
        chain.len() >= 1,
        ticks.len() == chain.len() - 1,
        chain[0].kind is Vested,
        chain[0].amount > 0,
        chain[0].completed_count == 0,
        chain[0].released_amount == 0,
        chain[0].installment_count == chain.len(),
        forall|k: int|
            0 <= k < chain.len() - 1 ==> #[trigger] chain[k + 1] == chain[k].successor(
                chain[k + 1].id,
                ticks[k],
            ),
        share == (chain[0].amount as int) / (chain.len() as int),
        0 <= j < chain.len(),
    ensures
        chain[j].kind is Vested,
        chain[j].amount == chain[0].amount,
        chain[j].installment_count == chain.len(),
        chain[j].completed_count == j,
        chain[j].released_amount == j * share,
        sum_due(chain.subrange(0, j)) == j * share,
    decreases j,
{
    let n = chain.len() as int;
    let total = chain[0].amount as int;
    if j == 0 {
        assert(chain.subrange(0, 0) =~= Seq::<PayoutView>::empty());
    } else {
        lemma_vesting_prefix(chain, ticks, j - 1, share);
        let prev = chain[j - 1];
        assert(chain[j] == prev.successor(chain[j].id, ticks[j - 1]));
        assert(prev.remaining() == n - (j - 1));
        assert(n - (j - 1) >= 2);
        assert(prev.due() == share);
        assert(share * n <= total) by (nonlinear_arith)
            requires share == total / n, n >= 1, total > 0;
        assert(j * share <= total) by (nonlinear_arith)
            requires share * n <= total, 0 <= j < n, share >= 0;
        assert(j * share == (j - 1) * share + share) by (nonlinear_arith);
        assert(chain.subrange(0, j).drop_last() =~= chain.subrange(0, j - 1));
        assert(chain.subrange(0, j).last() == prev);
    }
}

/// An installment before the last releases less than the total, so it
/// spawns the next.
proof fn lemma_vesting_step(n: int, j: int, share: int, total: int)
    requires
        n >= 1,
        total > 0,
        share == total / n,
        0 <= j < n - 1,
    ensures
        (j + 1) * share < total,
{
    assert(share * n <= total) by (nonlinear_arith)
        requires share == total / n, n >= 1, total > 0;
    if share == 0 {
        assert((j + 1) * share == 0) by (nonlinear_arith)
            requires share == 0;
    } else {
        assert((j + 1) * share <= (n - 1) * share) by (nonlinear_arith)
            requires j + 1 <= n - 1, share > 0;
        assert((n - 1) * share == n * share - share) by (nonlinear_arith);
        assert(n * share == share * n) by (nonlinear_arith);
    }
}

/// Whether settlement picks a ready record depends only on the set of
/// distinct approvers that approved it: it is picked exactly when their
/// number reaches what its amount requires, whatever order they came in.
pub proof fn law_threshold_gating(t: TreasuryView, p: PayoutView, q: PayoutView, now: Tick)
    requires
        p.approvals.no_duplicates(),
        q.approvals.no_duplicates(),
        p.approvals.to_set() == q.approvals.to_set(),
        q == (PayoutView { approvals: q.approvals, ..p }),
        ready_at(p.kind, now),
    ensures
        t.chosen(p, now) == t.chosen(q, now),
        t.chosen(p, now) <==> p.approvals.to_set().len() >= t.required(p.amount),
{
    p.approvals.unique_seq_to_set();
    q.approvals.unique_seq_to_set();
}

/// An approval from an approver a pending record does not have yet, while
/// there is room, adds exactly that approver to it and changes nothing
/// else: the number of distinct approvers of the record grows by one.
pub proof fn law_approval_adds_approver(t: TreasuryView, caller: Address, i: int)
    requires
        t.wf(),
        0 <= i < t.pending.len(),
        !t.pending[i].approvals.contains(caller),
        t.pending[i].approvals.len() < MAX_APPROVALS,
    ensures
        ({
            let p = t.pending[i];
            let u = t.after_approve(caller, p.id);
            &&& u.pending.len() == t.pending.len()
            &&& u.pending[i] == (PayoutView { approvals: p.approvals.push(caller), ..p })
            &&& u.pending[i].approvals.to_set() == p.approvals.to_set().insert(caller)
            &&& u.pending[i].approvals.to_set().len() == p.approvals.to_set().len() + 1
            &&& forall|j: int| 0 <= j < t.pending.len() && j != i ==> u.pending[j] == t.pending[j]
        }),
{
    let p = t.pending[i];
    let u = t.after_approve(caller, p.id);
    assert(record_wf(t.pending[i]));
    assert forall|j: int| 0 <= j < t.pending.len() && j != i implies u.pending[j] == t.pending[j] by {
        if j < i {
            assert(t.pending[j].id < p.id);
        } else {
            assert(p.id < t.pending[j].id);
        }
    }
    let s = p.approvals.push(caller);
    p.approvals.lemma_push_to_set_commute(caller);
    assert(s.no_duplicates());
    p.approvals.unique_seq_to_set();
    s.unique_seq_to_set();
}

/// An archived record is final: looking its id up yields it, with its
/// terminal status, and no pending record carries the id, so no
/// settlement picks it again.
pub proof fn law_archived_is_final(t: TreasuryView, i: int, now: Tick)
    requires
        t.wf(),
        0 <= i < t.archive.len(),
    ensures
        t.lookup(t.archive[i].id) == Some(t.archive[i]),
        t.archive[i].status.is_terminal(),
        forall|j: int| 0 <= j < t.pending.len() ==> t.pending[j].id != t.archive[i].id,
        forall|j: int| 0 <= j < t.selected(now).len() ==> (#[trigger] t.selected(now)[j]).id != t.archive[i].id,
{
    let id = t.archive[i].id;
    lemma_find_absent(t.pending, id);
    lemma_find_at(t.archive, i);
    assert forall|j: int| 0 <= j < t.selected(now).len() implies (#[trigger] t.selected(now)[j]).id != id by {
        crate::model::lemma_filter_from(t.pending, t.chosen_pred(now), j);
    }
}

/// Nothing leaves the archive: every operation keeps the archive it found
/// as a prefix of the one it leaves.
pub proof fn law_archive_only_grows(t: TreasuryView, caller: Address, now: Tick, id: PayoutId, to: Address, amount: Amount, kind: PayoutKind)
    ensures
        t.after_submit(caller, now, to, amount, kind).archive == t.archive,
        t.after_approve(caller, id).archive == t.archive,
        t.archive.is_prefix_of(t.after_cancel(caller, now, id).archive),
        t.archive.is_prefix_of(t.after_settlement(now).archive),
{
    if t.cancel_passes(caller, id) {
        assert(t.after_cancel(caller, now, id).archive.subrange(0, t.archive.len() as int) =~= t.archive);
    }
    assert(t.after_settlement(now).archive.subrange(0, t.archive.len() as int) =~= t.archive);
}

/// Looking up an id no record carries yields nothing.
proof fn lemma_find_absent(s: Seq<PayoutView>, id: PayoutId)
    requires
        forall|j: int| 0 <= j < s.len() ==> s[j].id != id,
    ensures
        find(s, id) is None,
    decreases s.len(),
{
    if s.len() > 0 {
        lemma_find_absent(s.drop_first(), id);
    }
}

/// Looking up the id of a record among records of distinct ids yields it.
proof fn lemma_find_at(s: Seq<PayoutView>, i: int)
    requires
        crate::model::ids_distinct(s),
        0 <= i < s.len(),
    ensures
        find(s, s[i].id) == Some(s[i]),
    decreases s.len(),
{
    if i > 0 {
        let d = s.drop_first();
        assert(d[i - 1] == s[i]);
        assert(s[0].id != s[i].id);
        lemma_find_at(d, i - 1);
    }
}

} // verus!
