use vstd::prelude::*;

use crate::MAX_ITERATIONS;
use crate::store::EntryV;
use crate::store::FaultMode;
use crate::sweep::RuleV;
use crate::sweep::count_eligible;
use crate::sweep::eligible;
use crate::sweep::examined_limit;
use crate::sweep::first_eligible;
use crate::sweep::first_matching;
use crate::sweep::lemma_count_eligible_bounds;
use crate::sweep::lemma_count_eligible_gap;
use crate::sweep::lemma_count_eligible_mono;
use crate::sweep::lemma_first_eligible;
use crate::sweep::lemma_first_matching;
use crate::sweep::matching;
use crate::sweep::normal_iterations;
use crate::sweep::store_after;
use crate::sweep::sweep_result;
use vstd::arithmetic::div_mod::lemma_div_is_ordered;
use vstd::arithmetic::div_mod::lemma_fundamental_div_mod_converse;
use vstd::arithmetic::mul::lemma_mul_inequality;

verus! {

/// A completed page fetch over a keyspace with no matching key processes
/// nothing: whenever the scan itself does not fail, the sweep reports no
/// error, counts no key, and still consumes at least one page.
pub proof fn lemma_no_matching_keys(s: Seq<EntryV>, faults: FaultMode, rule: RuleV, dry_run: bool)
    requires
        rule.wf(),
        faults != FaultMode::ScanFails,
        forall|i: int| 0 <= i < s.len() ==> !matching(#[trigger] s[i], rule.pattern),
    ensures
        sweep_result(s, faults, rule, dry_run).0.keys_processed == 0,
        sweep_result(s, faults, rule, dry_run).0.iterations >= 1,
        sweep_result(s, faults, rule, dry_run).0.error is None,
{
    let n = s.len() as int;
    let b = rule.batch as int;
    let ex = examined_limit(n, b);
    assert(forall|i: int| 0 <= i < s.len() ==> !eligible(#[trigger] s[i], rule.pattern));
    assert(0 <= ex <= n) by {
        lemma_mul_inequality(0, MAX_ITERATIONS as int, b);
    }
    lemma_count_eligible_gap(s, rule.pattern, 0, ex);
    lemma_first_matching(s, rule.pattern);
    lemma_first_eligible(s, rule.pattern);
    assert(first_matching(s, rule.pattern) == n) by {
        if first_matching(s, rule.pattern) < n {
            assert(matching(s[first_matching(s, rule.pattern)], rule.pattern));
        }
    }
    assert(first_eligible(s, rule.pattern) == n) by {
        if first_eligible(s, rule.pattern) < n {
            assert(eligible(s[first_eligible(s, rule.pattern)], rule.pattern));
        }
    }
    lemma_normal_iterations_at_least_one(n, b);
}

/// An error-free sweep always consumes at least one page.
proof fn lemma_normal_iterations_at_least_one(n: int, b: int)
    requires
        n >= 0,
        b > 0,
    ensures
        normal_iterations(n, b) >= 1,
{
    if n > 0 {
        lemma_div_is_ordered(b, n + b - 1, b);
        lemma_fundamental_div_mod_converse(b, b, 1, 0);
    }
}

/// A key that already carries a TTL is never altered by a sweep, and is
/// never counted: the processed count never exceeds the number of
/// persistent matching keys of the whole keyspace.
pub proof fn lemma_ttl_keys_untouched(s: Seq<EntryV>, faults: FaultMode, rule: RuleV, dry_run: bool)
    requires
        rule.wf(),
    ensures
        forall|i: int| 0 <= i < s.len() && (#[trigger] s[i]).ttl is Some
            ==> sweep_result(s, faults, rule, dry_run).1[i] == s[i],
        sweep_result(s, faults, rule, dry_run).0.keys_processed <= count_eligible(
            s,
            rule.pattern,
            s.len() as int,
        ),
{
    let n = s.len() as int;
    let b = rule.batch as int;
    let ex = examined_limit(n, b);
    let pat = rule.pattern;
    assert(0 <= ex <= n) by {
        lemma_mul_inequality(0, MAX_ITERATIONS as int, b);
    }
    lemma_count_eligible_mono(s, pat, ex, n);
    lemma_count_eligible_bounds(s, pat, ex);
    if faults == FaultMode::ExpireFails && !dry_run && first_eligible(s, pat) < ex {
        lemma_first_eligible(s, pat);
        let f = first_eligible(s, pat);
        assert(eligible(s[f], pat));
        lemma_count_eligible_gap(s, pat, 0, f);
        lemma_count_eligible_mono(s, pat, f + 1, n);
        assert(count_eligible(s, pat, f + 1) == 1);
    }
}

/// A dry run mutates nothing; and over the same snapshot it counts
/// exactly what a non-dry run would count, as long as TTL assignment
/// itself is not the failing operation (a dry run never performs one).
pub proof fn lemma_dry_run(s: Seq<EntryV>, faults: FaultMode, rule: RuleV)
    requires
        rule.wf(),
    ensures
        sweep_result(s, faults, rule, true).1 == s,
        faults != FaultMode::ExpireFails ==> sweep_result(s, faults, rule, true).0.keys_processed
            == sweep_result(s, faults, rule, false).0.keys_processed,
{
}

/// Idempotence: a second non-dry-run sweep over the store left behind by
/// a first one finds nothing left to process.
pub proof fn lemma_idempotent(s: Seq<EntryV>, rule: RuleV)
    requires
        rule.wf(),
    ensures
        ({
            let s1 = sweep_result(s, FaultMode::Reliable, rule, false).1;
            sweep_result(s1, FaultMode::Reliable, rule, false).0.keys_processed == 0
        }),
{
    let n = s.len() as int;
    let b = rule.batch as int;
    let ex = examined_limit(n, b);
    let pat = rule.pattern;
    let s1 = store_after(s, pat, rule.ttl_seconds, ex);
    assert(s1.len() == n);
    assert(forall|i: int| 0 <= i < ex ==> !eligible(#[trigger] s1[i], pat));
    assert(0 <= ex <= n) by {
        lemma_mul_inequality(0, MAX_ITERATIONS as int, b);
    }
    lemma_count_eligible_gap(s1, pat, 0, ex);
}

/// Reaching the iteration cap is not an error: the page count never
/// exceeds the cap, and a reliable sweep over a keyspace needing at least
/// the cap's worth of pages stops at exactly the cap, errorless.
pub proof fn lemma_iteration_cap(s: Seq<EntryV>, faults: FaultMode, rule: RuleV, dry_run: bool)
    requires
        rule.wf(),
    ensures
        sweep_result(s, faults, rule, dry_run).0.iterations <= MAX_ITERATIONS,
        faults == FaultMode::Reliable && s.len() > MAX_ITERATIONS * rule.batch ==> (
        sweep_result(s, faults, rule, dry_run).0.iterations == MAX_ITERATIONS
            && sweep_result(s, faults, rule, dry_run).0.error is None),
{
    let n = s.len() as int;
    let b = rule.batch as int;
    let ex = examined_limit(n, b);
    let pat = rule.pattern;
    lemma_normal_iterations_bounded(n, b);
    lemma_first_matching(s, pat);
    lemma_first_eligible(s, pat);
    if first_matching(s, pat) < ex {
        lemma_page_below_cap(first_matching(s, pat), b);
    }
    if first_eligible(s, pat) < ex {
        lemma_page_below_cap(first_eligible(s, pat), b);
    }
    if n > MAX_ITERATIONS * b {
        assert(ex == MAX_ITERATIONS * b);
        assert(normal_iterations(n, b) == MAX_ITERATIONS as int) by {
            lemma_div_is_ordered((MAX_ITERATIONS as int + 1) * b, n + b - 1, b);
            lemma_fundamental_div_mod_converse(
                (MAX_ITERATIONS as int + 1) * b,
                b,
                MAX_ITERATIONS as int + 1,
                0,
            );
            assert((MAX_ITERATIONS as int + 1) * b <= n + b - 1) by (nonlinear_arith)
                requires
                    n > MAX_ITERATIONS as int * b,
                    b > 0,
            ;
        }
    }
}

/// The error-free page count never exceeds the cap.
proof fn lemma_normal_iterations_bounded(n: int, b: int)
    requires
        n >= 0,
        b > 0,
    ensures
        normal_iterations(n, b) <= MAX_ITERATIONS,
{
}

/// An entry examined before the cap cuts the scan short lies on a page
/// numbered at most the cap.
proof fn lemma_page_below_cap(i: int, b: int)
    requires
        b > 0,
        0 <= i < MAX_ITERATIONS * b,
    ensures
        i / b + 1 <= MAX_ITERATIONS,
{
    lemma_div_is_ordered(i, MAX_ITERATIONS as int * b - 1, b);
    lemma_fundamental_div_mod_converse(
        MAX_ITERATIONS as int * b - 1,
        b,
        MAX_ITERATIONS as int - 1,
        b - 1,
    );
    assert(MAX_ITERATIONS as int * b - 1 == (MAX_ITERATIONS as int - 1) * b + (b - 1))
        by (nonlinear_arith);
}

/// Failure isolation: when exactly one rule's store session fails and
/// every other session is reliable, exactly that rule's outcome carries
/// an error, and every other outcome is untouched by the failure — each
/// is a function of its own store session and rule alone.
pub proof fn lemma_failure_isolation(
    entries: Seq<Seq<EntryV>>,
    faults: Seq<FaultMode>,
    rules: Seq<RuleV>,
    dry_run: bool,
    k: int,
)
    requires
        entries.len() == faults.len() == rules.len(),
        0 <= k < faults.len(),
        faults[k] == FaultMode::ScanFails,
        forall|i: int| 0 <= i < faults.len() && i != k ==> faults[i] == FaultMode::Reliable,
        forall|i: int| 0 <= i < rules.len() ==> (#[trigger] rules[i]).wf(),
    ensures
        sweep_result(entries[k], faults[k], rules[k], dry_run).0.error is Some,
        forall|i: int| 0 <= i < faults.len() && i != k ==> (#[trigger] sweep_result(
            entries[i],
            faults[i],
            rules[i],
            dry_run,
        ).0).error is None,
{
}

} // verus!
