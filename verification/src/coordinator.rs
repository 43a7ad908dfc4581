use vstd::prelude::*;

use crate::store::Store;
use crate::store::wf;
use crate::sweep::Rule;
use crate::sweep::SweepOutcome;
use crate::sweep::run_sweep;
use crate::sweep::sweep_result;

verus! {

/// Runs one sweep per rule, each against its own store session, and
/// collects exactly one outcome per rule, in rule order.  A failing
/// sweep cannot disturb any other: every pair is handed to `run_sweep`
/// independently, and every outcome is kept, error or not.
pub fn run_all(stores: Vec<Store>, rules: Vec<Rule>, dry_run: bool) -> (r: (
    Vec<Store>,
    Vec<SweepOutcome>,
))
    requires
        stores@.len() == rules@.len(),
        forall|i: int| 0 <= i < rules@.len() ==> #[trigger] rules@[i].wf(),
        forall|i: int| 0 <= i < stores@.len() ==> wf(#[trigger] stores@[i]@),
    ensures
        r.0@.len() == rules@.len(),
        r.1@.len() == rules@.len(),
        forall|i: int| 0 <= i < rules@.len() ==> #[trigger] r.1@[i]@ == sweep_result(
            stores@[i]@,
            stores@[i].faults,
            rules@[i]@,
            dry_run,
        ).0,
        forall|i: int| 0 <= i < rules@.len() ==> #[trigger] r.0@[i]@ == sweep_result(
            stores@[i]@,
            stores@[i].faults,
            rules@[i]@,
            dry_run,
        ).1,
        forall|i: int| 0 <= i < rules@.len() ==> #[trigger] r.0@[i].faults == stores@[i].faults
            && wf(r.0@[i]@),
{
    let ghost orig_stores: Seq<Store> = stores@;
    let ghost orig_rules: Seq<Rule> = rules@;
    let mut stores = stores;
    let mut rules = rules;
    let mut done_stores: Vec<Store> = Vec::new();
    let mut outcomes: Vec<SweepOutcome> = Vec::new();
    while stores.len() > 0
        invariant
            orig_stores.len() == orig_rules.len(),
            forall|i: int| 0 <= i < orig_rules.len() ==> #[trigger] orig_rules[i].wf(),
            forall|i: int| 0 <= i < orig_stores.len() ==> wf(#[trigger] orig_stores[i]@),
            outcomes@.len() == done_stores@.len(),
            done_stores@.len() <= orig_stores.len(),
            stores@ == orig_stores.skip(done_stores@.len() as int),
            rules@ == orig_rules.skip(done_stores@.len() as int),
            forall|i: int| 0 <= i < done_stores@.len() ==> #[trigger] outcomes@[i]@
                == sweep_result(orig_stores[i]@, orig_stores[i].faults, orig_rules[i]@, dry_run).0,
            forall|i: int| 0 <= i < done_stores@.len() ==> #[trigger] done_stores@[i]@
                == sweep_result(orig_stores[i]@, orig_stores[i].faults, orig_rules[i]@, dry_run).1,
            forall|i: int| 0 <= i < done_stores@.len() ==> #[trigger] done_stores@[i].faults
                == orig_stores[i].faults && wf(done_stores@[i]@),
        decreases stores@.len(),
    {
        let ghost k: int = done_stores@.len() as int;
        let mut st = stores.remove(0);
        let rl = rules.remove(0);
        proof {
            assert(st == orig_stores[k]);
            assert(rl == orig_rules[k]);
            assert(stores@ =~= orig_stores.skip(k + 1));
            assert(rules@ =~= orig_rules.skip(k + 1));
        }
        let outcome = run_sweep(&mut st, rl, dry_run);
        done_stores.push(st);
        outcomes.push(outcome);
    }
    (done_stores, outcomes)
}

} // verus!
