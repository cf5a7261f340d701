use vstd::prelude::*;

use crate::types::Amount;

verus! {

/// One bracket of the approval table: amounts in `[min_amount, max_amount]`
/// need `required_approvals` approvals.
#[derive(Clone, Copy, Debug, PartialEq, Eq, Structural)]
pub struct Threshold {
    pub min_amount: Amount,
    pub max_amount: Amount,
    pub required_approvals: u32,
}

impl Threshold {
    pub open spec fn covers(self, amount: Amount) -> bool {
        self.min_amount <= amount && amount <= self.max_amount
    }
}

/// The requirement of the first bracket of `table` that covers `amount`,
/// or 1 when none does.
pub open spec fn table_lookup(table: Seq<Threshold>, amount: Amount) -> u32
    decreases table.len(),
{
    if table.len() == 0 {
        1
    } else if table[0].covers(amount) {
        table[0].required_approvals
    } else {
        table_lookup(table.drop_first(), amount)
    }
}

/// The table lookup, clamped to the number of registered approvers.
pub open spec fn required_for(table: Seq<Threshold>, approvers: nat, amount: Amount) -> u32 {
    let t = table_lookup(table, amount);
    if (t as nat) <= approvers {
        t
    } else {
        approvers as u32
    }
}

/// The bracket table used when none is given: up to 500e9 one approval, up
/// to 2.5e12 two, above that three.
pub open spec fn default_table() -> Seq<Threshold> {
    seq![
        Threshold { min_amount: 0, max_amount: 500_000_000_000, required_approvals: 1 },
        Threshold {
            min_amount: 500_000_000_000,
            max_amount: 2_500_000_000_000,
            required_approvals: 2,
        },
        Threshold { min_amount: 2_500_000_000_000, max_amount: u128::MAX, required_approvals: 3 },
    ]
}

/// The default approval table.
pub fn default_thresholds() -> (r: Vec<Threshold>)
    ensures
        r@ == default_table(),
{
    let mut r: Vec<Threshold> = Vec::new();
    r.push(Threshold { min_amount: 0, max_amount: 500_000_000_000, required_approvals: 1 });
    r.push(
        Threshold {
            min_amount: 500_000_000_000,
            max_amount: 2_500_000_000_000,
            required_approvals: 2,
        },
    );
    r.push(Threshold { min_amount: 2_500_000_000_000, max_amount: u128::MAX, required_approvals: 3 });
    proof {
        assert(r@ =~= default_table());
    }
    r
}

/// The approvals an amount needs under `table` with `approvers` registered
/// approvers: the first covering bracket's requirement (1 if none covers
/// it), never more than `approvers`.
pub fn required_approvals_in(table: &Vec<Threshold>, approvers: usize, amount: Amount) -> (r: u32)
    ensures
        r == required_for(table@, approvers as nat, amount),
{
    let mut i: usize = 0;
    let mut found: u32 = 1;
    let mut done = false;
    proof {
        assert(table@.subrange(0, table@.len() as int) =~= table@);
    }
    while i < table.len() && !done
        invariant
            0 <= i <= table.len(),
            done ==> found == table_lookup(table@, amount),
            !done ==> found == 1,
            !done ==> table_lookup(table@, amount) == table_lookup(table@.subrange(i as int, table@.len() as int), amount),
        decreases table.len() - i,
    {
        let t = table[i];
        proof {
            let rest = table@.subrange(i as int, table@.len() as int);
            assert(rest[0] == t);
            assert(rest.drop_first() =~= table@.subrange(i + 1, table@.len() as int));
        }
        if t.min_amount <= amount && amount <= t.max_amount {
            found = t.required_approvals;
            done = true;
        }
        i = i + 1;
    }
    proof {
        if !done {
            assert(table@.subrange(i as int, table@.len() as int).len() == 0);
        }
    }
    if (found as usize) <= approvers {
        found
    } else {
        approvers as u32
    }
}

} // verus!
