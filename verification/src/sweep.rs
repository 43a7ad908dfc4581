use vstd::prelude::*;
use vstd::arithmetic::div_mod::lemma_fundamental_div_mod_converse;
use vstd::arithmetic::div_mod::lemma_div_is_ordered;
use vstd::arithmetic::mul::lemma_mul_inequality;

use crate::MAX_ITERATIONS;
use crate::glob::glob_match;
use crate::store::EntryV;
use crate::store::FaultMode;
use crate::store::KeyTtl;
use crate::store::Store;
use crate::store::StoreError;
use crate::store::has_key;
use crate::store::lemma_key_index_unique;
use crate::store::lemma_matching_indices;
use crate::store::lemma_matching_indices_keys;
use crate::store::matching_indices;
use crate::store::scan_end;
use crate::store::set_ttl;
use crate::store::ttl_of;
use crate::store::wf;

verus! {

/// One cleanup rule: scan the keys matching `pattern` and assign
/// `ttl_seconds` to those that are persistent, fetching pages of
/// `batch` entries.
#[derive(Clone, Debug)]
pub struct Rule {
    pub name: String,
    pub pattern: Vec<u8>,
    pub ttl_seconds: u64,
    pub batch: usize,
}

/// Mathematical image of a rule.
pub ghost struct RuleV {
    pub name: Seq<char>,
    pub pattern: Seq<u8>,
    pub ttl_seconds: u64,
    pub batch: usize,
}

impl View for Rule {
    type V = RuleV;

    open spec fn view(&self) -> RuleV {
        RuleV { name: self.name@, pattern: self.pattern@, ttl_seconds: self.ttl_seconds, batch: self.batch }
    }
}

impl RuleV {
    /// The rule invariant: a positive TTL, a positive page size, and a
    /// non-empty pattern.
    pub open spec fn wf(self) -> bool {
        self.ttl_seconds > 0 && self.batch > 0 && self.pattern.len() > 0
    }
}

impl Rule {
    pub open spec fn wf(self) -> bool {
        self@.wf()
    }

    /// Validating constructor: yields a rule exactly when the invariant
    /// holds of the inputs.
    pub fn new(name: String, pattern: Vec<u8>, ttl_seconds: u64, batch: usize) -> (r: Option<
        Rule,
    >)
        ensures
            (match r {
                Some(rule) => rule@ == (RuleV {
                    name: name@,
                    pattern: pattern@,
                    ttl_seconds,
                    batch,
                }) && rule.wf(),
                None => !(ttl_seconds > 0 && batch > 0 && pattern.len() > 0),
            }),
    {
        if ttl_seconds > 0 && batch > 0 && pattern.len() > 0 {
            Some(Rule { name, pattern, ttl_seconds, batch })
        } else {
            None
        }
    }
}

/// Outcome of one sweep over one rule's keyspace.
pub struct SweepOutcome {
    pub rule: Rule,
    pub keys_processed: usize,
    pub iterations: u64,
    pub error: Option<StoreError>,
}

/// Mathematical image of an outcome.
pub ghost struct OutcomeV {
    pub rule: RuleV,
    pub keys_processed: int,
    pub iterations: int,
    pub error: Option<StoreError>,
}

impl View for SweepOutcome {
    type V = OutcomeV;

    open spec fn view(&self) -> OutcomeV {
        OutcomeV {
            rule: self.rule@,
            keys_processed: self.keys_processed as int,
            iterations: self.iterations as int,
            error: self.error,
        }
    }
}

/// Whether the entry's key matches the rule's pattern.
pub open spec fn matching(e: EntryV, pat: Seq<u8>) -> bool {
    glob_match(pat, e.key)
}

/// Whether the entry is eligible for TTL assignment: it matches the
/// pattern and is persistent.
pub open spec fn eligible(e: EntryV, pat: Seq<u8>) -> bool {
    matching(e, pat) && e.ttl is None
}

/// Number of eligible entries among the first `n`.
pub open spec fn count_eligible(s: Seq<EntryV>, pat: Seq<u8>, n: int) -> int
    decreases n,
{
    if n <= 0 {
        0
    } else {
        count_eligible(s, pat, n - 1) + (if eligible(s[n - 1], pat) {
            1int
        } else {
            0int
        })
    }
}

/// The store after a non-dry-run sweep has examined the first `limit`
/// entries: every eligible one of them now carries `secs`, everything
/// else is untouched.
pub open spec fn store_after(s: Seq<EntryV>, pat: Seq<u8>, secs: u64, limit: int) -> Seq<EntryV> {
    Seq::new(
        s.len(),
        |i: int| if i < limit && eligible(s[i], pat) {
            EntryV { key: s[i].key, ttl: Some(secs) }
        } else {
            s[i]
        },
    )
}

/// Index of the first matching entry, or `s.len()` when none matches.
pub open spec fn first_matching(s: Seq<EntryV>, pat: Seq<u8>) -> int
    decreases s.len(),
{
    if s.len() == 0 {
        0
    } else if matching(s[0], pat) {
        0
    } else {
        1 + first_matching(s.drop_first(), pat)
    }
}

/// Index of the first eligible entry, or `s.len()` when none is.
pub open spec fn first_eligible(s: Seq<EntryV>, pat: Seq<u8>) -> int
    decreases s.len(),
{
    if s.len() == 0 {
        0
    } else if eligible(s[0], pat) {
        0
    } else {
        1 + first_eligible(s.drop_first(), pat)
    }
}

/// Number of entries a sweep examines before it stops: everything, unless
/// the iteration cap cuts the scan short.
pub open spec fn examined_limit(n: int, b: int) -> int {
    if n <= MAX_ITERATIONS * b {
        n
    } else {
        MAX_ITERATIONS * b
    }
}

/// Number of pages a completed (error-free) sweep consumes.
pub open spec fn normal_iterations(n: int, b: int) -> int {
    if n == 0 {
        1
    } else if (n + b - 1) / b <= MAX_ITERATIONS {
        (n + b - 1) / b
    } else {
        MAX_ITERATIONS as int
    }
}

/// The page (counted from 1) during which entry `i` is examined.
pub open spec fn page_of(i: int, b: int) -> int {
    i / b + 1
}

/// The outcome and the final store of one sweep of `rule` over a store
/// session holding `s` in fault mode `faults`.
pub open spec fn sweep_result(s: Seq<EntryV>, faults: FaultMode, rule: RuleV, dry_run: bool) -> (
    OutcomeV,
    Seq<EntryV>,
) {
    let n = s.len() as int;
    let b = rule.batch as int;
    let ex = examined_limit(n, b);
    let pat = rule.pattern;
    let normal = OutcomeV {
        rule,
        keys_processed: count_eligible(s, pat, ex),
        iterations: normal_iterations(n, b),
        error: None,
    };
    match faults {
        FaultMode::Reliable => (
            normal,
            if dry_run {
                s
            } else {
                store_after(s, pat, rule.ttl_seconds, ex)
            },
        ),
        FaultMode::ScanFails => (
            OutcomeV { rule, keys_processed: 0, iterations: 0, error: Some(StoreError::Scan) },
            s,
        ),
        FaultMode::TtlFails => if first_matching(s, pat) < ex {
            (
                OutcomeV {
                    rule,
                    keys_processed: 0,
                    iterations: page_of(first_matching(s, pat), b),
                    error: Some(StoreError::TtlQuery),
                },
                s,
            )
        } else {
            (normal, s)
        },
        FaultMode::ExpireFails => if dry_run {
            (normal, s)
        } else if first_eligible(s, pat) < ex {
            (
                OutcomeV {
                    rule,
                    keys_processed: 1,
                    iterations: page_of(first_eligible(s, pat), b),
                    error: Some(StoreError::Expire),
                },
                s,
            )
        } else {
            (normal, s)
        },
    }
}

pub proof fn lemma_count_eligible_bounds(s: Seq<EntryV>, pat: Seq<u8>, n: int)
    requires
        n <= s.len(),
    ensures
        0 <= count_eligible(s, pat, n) <= (if n < 0 {
            0int
        } else {
            n
        }),
    decreases n,
{
    if n > 0 {
        lemma_count_eligible_bounds(s, pat, n - 1);
    }
}

/// Over a stretch with nothing eligible the count does not move.
pub proof fn lemma_count_eligible_gap(s: Seq<EntryV>, pat: Seq<u8>, a: int, c: int)
    requires
        0 <= a <= c,
        forall|i: int| a <= i < c ==> !eligible(s[i], pat),
    ensures
        count_eligible(s, pat, c) == count_eligible(s, pat, a),
    decreases c - a,
{
    if c > a {
        lemma_count_eligible_gap(s, pat, a, c - 1);
    }
}

pub proof fn lemma_count_eligible_mono(s: Seq<EntryV>, pat: Seq<u8>, a: int, c: int)
    requires
        a <= c,
    ensures
        count_eligible(s, pat, a) <= count_eligible(s, pat, c),
    decreases c - a,
{
    if c > a {
        lemma_count_eligible_mono(s, pat, a, c - 1);
    }
}

pub proof fn lemma_first_matching(s: Seq<EntryV>, pat: Seq<u8>)
    ensures
        0 <= first_matching(s, pat) <= s.len(),
        first_matching(s, pat) < s.len() ==> matching(s[first_matching(s, pat)], pat),
        forall|j: int| 0 <= j < first_matching(s, pat) ==> !matching(s[j], pat),
    decreases s.len(),
{
    if s.len() == 0 {
    } else if matching(s[0], pat) {
    } else {
        let t = s.drop_first();
        lemma_first_matching(t, pat);
        assert(forall|i: int| 0 <= i < t.len() ==> t[i] == s[i + 1]);
        let f = first_matching(t, pat);
        assert forall|j: int| 0 <= j < f + 1 implies !matching(s[j], pat) by {
            if j > 0 {
                assert(t[j - 1] == s[j]);
            }
        }
        if f < t.len() {
            assert(s[f + 1] == t[f]);
        }
    }
}

pub proof fn lemma_first_eligible(s: Seq<EntryV>, pat: Seq<u8>)
    ensures
        0 <= first_eligible(s, pat) <= s.len(),
        first_eligible(s, pat) < s.len() ==> eligible(s[first_eligible(s, pat)], pat),
        forall|j: int| 0 <= j < first_eligible(s, pat) ==> !eligible(s[j], pat),
    decreases s.len(),
{
    if s.len() == 0 {
    } else if eligible(s[0], pat) {
    } else {
        let t = s.drop_first();
        lemma_first_eligible(t, pat);
        assert(forall|i: int| 0 <= i < t.len() ==> t[i] == s[i + 1]);
        let f = first_eligible(t, pat);
        assert forall|j: int| 0 <= j < f + 1 implies !eligible(s[j], pat) by {
            if j > 0 {
                assert(t[j - 1] == s[j]);
            }
        }
        if f < t.len() {
            assert(s[f + 1] == t[f]);
        }
    }
}

/// With `q` full pages behind the cursor, the entry at `i` on the current
/// page is examined during page `q + 1`.
proof fn lemma_page_of(i: int, b: int, q: int)
    requires
        b > 0,
        q >= 0,
        q * b <= i < q * b + b,
    ensures
        page_of(i, b) == q + 1,
{
    lemma_fundamental_div_mod_converse(i, b, q, i - q * b);
}

/// Between two consecutive matching indices of a page — and before the
/// first, and after the last — nothing matches.
proof fn lemma_gap_nonmatching(
    s: Seq<EntryV>,
    pat: Seq<u8>,
    cur: int,
    end: int,
    j: int,
    bpos: int,
    upto: int,
)
    requires
        0 <= cur <= end <= s.len(),
        0 <= j <= matching_indices(s, pat, cur, end).len(),
        j == 0 ==> bpos == cur,
        j > 0 ==> bpos == matching_indices(s, pat, cur, end)[j - 1] + 1,
        upto == (if j < matching_indices(s, pat, cur, end).len() {
            matching_indices(s, pat, cur, end)[j]
        } else {
            end
        }),
    ensures
        cur <= bpos <= upto <= end,
        forall|i: int| bpos <= i < upto ==> !matching(s[i], pat),
{
    let mi = matching_indices(s, pat, cur, end);
    lemma_matching_indices(s, pat, cur, end);
    if j > 0 && j < mi.len() {
        assert(mi[j - 1] < mi[j]);
    }
    assert forall|i: int| bpos <= i < upto implies !matching(s[i], pat) by {
        if matching(s[i], pat) {
            assert(mi.contains(i));
            let q = choose|q: int| 0 <= q < mi.len() && mi[q] == i;
            if q < j {
                if q < j - 1 {
                    assert(mi[q] < mi[j - 1]);
                }
                assert(i <= mi[j - 1]);
            } else {
                assert(j < mi.len());
                if q > j {
                    assert(mi[j] < mi[q]);
                }
                assert(i >= upto);
            }
        }
    }
}

/// Over a stretch with nothing matching, neither the processed count nor
/// the store moves, and the first matching and first eligible indices lie
/// beyond it.
proof fn lemma_extend_nonmatching(s: Seq<EntryV>, pat: Seq<u8>, secs: u64, a: int, c: int)
    requires
        0 <= a <= c <= s.len(),
        forall|i: int| a <= i < c ==> !matching(s[i], pat),
    ensures
        count_eligible(s, pat, c) == count_eligible(s, pat, a),
        store_after(s, pat, secs, c) == store_after(s, pat, secs, a),
        first_matching(s, pat) >= a ==> first_matching(s, pat) >= c,
        first_eligible(s, pat) >= a ==> first_eligible(s, pat) >= c,
{
    assert(forall|i: int| a <= i < c ==> !eligible(s[i], pat));
    lemma_count_eligible_gap(s, pat, a, c);
    assert(store_after(s, pat, secs, c) =~= store_after(s, pat, secs, a));
    lemma_first_matching(s, pat);
    lemma_first_eligible(s, pat);
    if first_matching(s, pat) >= a && first_matching(s, pat) < c {
        assert(matching(s[first_matching(s, pat)], pat));
        assert(false);
    }
    if first_eligible(s, pat) >= a && first_eligible(s, pat) < c {
        assert(eligible(s[first_eligible(s, pat)], pat));
        assert(false);
    }
}

/// Distinct keys survive any keys-preserving rewrite.
proof fn lemma_wf_keys_preserved(orig: Seq<EntryV>, s2: Seq<EntryV>)
    requires
        wf(orig),
        s2.len() == orig.len(),
        forall|i: int| 0 <= i < orig.len() ==> s2[i].key == orig[i].key,
    ensures
        wf(s2),
{
}

/// Assigning the TTL of the eligible entry at `idx` moves the store one
/// entry further along the sweep.
proof fn lemma_store_after_step(orig: Seq<EntryV>, pat: Seq<u8>, secs: u64, idx: int)
    requires
        wf(orig),
        0 <= idx < orig.len(),
        eligible(orig[idx], pat),
    ensures
        set_ttl(store_after(orig, pat, secs, idx), orig[idx].key, secs) == store_after(
            orig,
            pat,
            secs,
            idx + 1,
        ),
{
    let pre = store_after(orig, pat, secs, idx);
    lemma_wf_keys_preserved(orig, pre);
    lemma_key_index_unique(pre, orig[idx].key, idx);
    assert(set_ttl(pre, orig[idx].key, secs) =~= store_after(orig, pat, secs, idx + 1));
}

/// One full scan-and-expire pass for `rule` over the given store session:
/// pages of matching keys are fetched cursor by cursor, every persistent
/// matching key is counted, and — outside dry-run mode — assigned the
/// rule's TTL.  The pass stops at the scan-complete cursor, at the
/// iteration cap, or at the first store failure, whose error it records.
pub fn run_sweep(store: &mut Store, rule: Rule, dry_run: bool) -> (outcome: SweepOutcome)
    requires
        rule.wf(),
        wf(old(store)@),
    ensures
        final(store).faults == old(store).faults,
        wf(final(store)@),
        outcome@ == sweep_result(old(store)@, old(store).faults, rule@, dry_run).0,
        final(store)@ == sweep_result(old(store)@, old(store).faults, rule@, dry_run).1,
{
    let ghost orig: Seq<EntryV> = old(store)@;
    let ghost pat: Seq<u8> = rule.pattern@;
    let ghost b: int = rule.batch as int;
    let ghost tsec: u64 = rule.ttl_seconds;
    let ghost n: int = orig.len() as int;
    let ghost fmode: FaultMode = old(store).faults;

    let total = store.len();
    let mut cursor: usize = 0;
    let mut iterations: u64 = 0;
    let mut processed: usize = 0;

    proof {
        lemma_first_matching(orig, pat);
        lemma_first_eligible(orig, pat);
        assert(store_after(orig, pat, tsec, 0) =~= orig);
    }

    loop
        invariant
            orig == old(store)@,
            pat == rule.pattern@,
            b == rule.batch as int,
            tsec == rule.ttl_seconds,
            n == orig.len() as int,
            total as int == n,
            fmode == old(store).faults,
            rule.wf(),
            wf(orig),
            store.faults == fmode,
            store@.len() == n,
            forall|i: int| 0 <= i < n ==> store@[i].key == orig[i].key,
            cursor as int == iterations as int * b,
            iterations < MAX_ITERATIONS,
            cursor as int <= n,
            iterations > 0 ==> 0 < cursor && (cursor as int) < n,
            processed as int == count_eligible(orig, pat, cursor as int),
            store@ == (if dry_run {
                orig
            } else {
                store_after(orig, pat, tsec, cursor as int)
            }),
            fmode == FaultMode::TtlFails ==> first_matching(orig, pat) >= cursor as int,
            fmode == FaultMode::ExpireFails && !dry_run ==> first_eligible(orig, pat)
                >= cursor as int,
            fmode == FaultMode::ScanFails ==> iterations == 0,
        decreases n - cursor as int,
    {
        let ghost cur: int = cursor as int;
        let page = match store.scan(cursor, &rule.pattern, rule.batch) {
            Result::Err(e) => {
                proof {
                    if !dry_run {
                        assert(store@ =~= orig);
                    }
                }
                return SweepOutcome {
                    rule,
                    keys_processed: 0,
                    iterations: 0,
                    error: Some(e),
                };
            },
            Result::Ok(p) => p,
        };
        let (next, keys) = page;
        iterations = iterations + 1;
        let ghost end: int = scan_end(n, cur, b);
        let ghost mi: Seq<int> = matching_indices(orig, pat, cur, end);
        proof {
            lemma_matching_indices_keys(store@, orig, pat, cur, end);
            lemma_matching_indices(orig, pat, cur, end);
            assert((iterations as int - 1) * b + b == iterations as int * b) by (nonlinear_arith);
        }

        let ghost mut bpos: int = cur;
        let mut j: usize = 0;
        while j < keys.len()
            invariant
                orig == old(store)@,
                pat == rule.pattern@,
                b == rule.batch as int,
                tsec == rule.ttl_seconds,
                n == orig.len() as int,
                total as int == n,
                fmode == old(store).faults,
                rule.wf(),
                wf(orig),
                store.faults == fmode,
                fmode != FaultMode::ScanFails,
                store@.len() == n,
                forall|i: int| 0 <= i < n ==> store@[i].key == orig[i].key,
                cur == cursor as int,
                0 <= cur <= bpos <= end <= n,
                end == scan_end(n, cur, b),
                (iterations as int - 1) * b == cur,
                iterations as int * b == cur + b,
                1 <= iterations as int <= MAX_ITERATIONS,
                next as int == (if end == n {
                    0int
                } else {
                    end
                }),
                mi == matching_indices(orig, pat, cur, end),
                j <= keys.len() == mi.len(),
                j == 0 ==> bpos == cur,
                j > 0 ==> bpos == mi[j - 1] + 1,
                forall|q: int| 0 <= q < mi.len() ==> keys@[q]@ == orig[mi[q]].key,
                processed as int == count_eligible(orig, pat, bpos),
                store@ == (if dry_run {
                    orig
                } else {
                    store_after(orig, pat, tsec, bpos)
                }),
                fmode == FaultMode::TtlFails ==> j == 0 && first_matching(orig, pat) >= bpos,
                fmode == FaultMode::ExpireFails && !dry_run ==> first_eligible(orig, pat) >= bpos,
            decreases keys.len() - j,
        {
            let key = &keys[j];
            let ghost idx: int = mi[j as int];
            proof {
                lemma_matching_indices(orig, pat, cur, end);
                lemma_gap_nonmatching(orig, pat, cur, end, j as int, bpos, idx);
                lemma_extend_nonmatching(orig, pat, tsec, bpos, idx);
                bpos = idx;
                assert(idx < n);
                assert(idx < MAX_ITERATIONS * b) by {
                    assert(idx < end <= cur + b);
                    assert(iterations as int <= MAX_ITERATIONS);
                    lemma_mul_inequality(iterations as int, MAX_ITERATIONS as int, b);
                }
                lemma_wf_keys_preserved(orig, store@);
                lemma_key_index_unique(store@, orig[idx].key, idx);
                assert(key@ == orig[idx].key);
                assert(store@[idx].ttl == orig[idx].ttl);
            }
            match store.get_ttl(key) {
                Result::Err(e) => {
                    proof {
                        // The very first TTL query fails, so this matching
                        // entry is the first one of the whole keyspace.
                        lemma_first_matching(orig, pat);
                        assert(first_matching(orig, pat) == idx);
                        lemma_extend_nonmatching(orig, pat, tsec, 0, idx);
                        assert(count_eligible(orig, pat, idx) == 0);
                        lemma_page_of(idx, b, iterations as int - 1);
                        if !dry_run {
                            assert(store@ =~= orig);
                        }
                    }
                    return SweepOutcome {
                        rule,
                        keys_processed: 0,
                        iterations,
                        error: Some(e),
                    };
                },
                Result::Ok(t) => {
                    match t {
                        KeyTtl::Persistent => {
                            proof {
                                assert(ttl_of(store@, key@) == KeyTtl::Persistent);
                                assert(orig[idx].ttl is None);
                                assert(eligible(orig[idx], pat));
                                lemma_count_eligible_bounds(orig, pat, idx);
                            }
                            processed = processed + 1;
                            if !dry_run {
                                match store.set_expire(key, rule.ttl_seconds) {
                                    Result::Err(e) => {
                                        proof {
                                            lemma_first_eligible(orig, pat);
                                            assert(first_eligible(orig, pat) == idx);
                                            lemma_count_eligible_gap(orig, pat, 0, idx);
                                            assert(count_eligible(orig, pat, idx) == 0);
                                            lemma_page_of(idx, b, iterations as int - 1);
                                            assert(store@ =~= orig);
                                        }
                                        return SweepOutcome {
                                            rule,
                                            keys_processed: processed,
                                            iterations,
                                            error: Some(e),
                                        };
                                    },
                                    Result::Ok(_found) => {
                                        proof {
                                            lemma_store_after_step(orig, pat, tsec, idx);
                                            bpos = idx + 1;
                                        }
                                    },
                                }
                            } else {
                                proof {
                                    bpos = idx + 1;
                                }
                            }
                        },
                        _ => {
                            proof {
                                assert(ttl_of(store@, key@) == t);
                                assert(has_key(store@, key@));
                                assert(t is Expires);
                                assert(orig[idx].ttl is Some);
                                assert(!eligible(orig[idx], pat));
                                if !dry_run {
                                    assert(store_after(orig, pat, tsec, idx + 1) =~= store_after(
                                        orig,
                                        pat,
                                        tsec,
                                        idx,
                                    ));
                                }
                                if fmode == FaultMode::ExpireFails && !dry_run {
                                    lemma_first_eligible(orig, pat);
                                    assert(first_eligible(orig, pat) != idx);
                                }
                                bpos = idx + 1;
                            }
                        },
                    }
                    j = j + 1;
                },
            }
        }
        proof {
            lemma_gap_nonmatching(orig, pat, cur, end, j as int, bpos, end);
            lemma_extend_nonmatching(orig, pat, tsec, bpos, end);
            bpos = end;
        }
        if next == 0 {
            proof {
                assert(end == n);
                assert(n <= iterations as int * b);
                assert(examined_limit(n, b) == n) by {
                    lemma_mul_inequality(iterations as int, MAX_ITERATIONS as int, b);
                }
                if n == 0 {
                    assert((iterations as int - 1) * b == 0);
                    assert(iterations as int - 1 == 0) by (nonlinear_arith)
                        requires
                            (iterations as int - 1) * b == 0,
                            b > 0,
                            iterations as int >= 1,
                    ;
                } else {
                    assert(cur < n);
                    lemma_fundamental_div_mod_converse(
                        n + b - 1,
                        b,
                        iterations as int,
                        n + b - 1 - iterations as int * b,
                    );
                    assert(normal_iterations(n, b) == iterations as int);
                }
                if fmode == FaultMode::TtlFails || (fmode == FaultMode::ExpireFails && !dry_run) {
                    lemma_first_matching(orig, pat);
                    lemma_first_eligible(orig, pat);
                    if !dry_run {
                        assert(store@ =~= orig);
                    }
                }
            }
            return SweepOutcome {
                rule,
                keys_processed: processed,
                iterations,
                error: None,
            };
        }
        if iterations == MAX_ITERATIONS {
            proof {
                assert(end != n);
                assert(end == cur + b);
                assert(end == MAX_ITERATIONS * b);
                assert(n > MAX_ITERATIONS * b);
                assert(examined_limit(n, b) == end);
                assert(normal_iterations(n, b) == MAX_ITERATIONS as int) by {
                    let q = (n + b - 1) / b;
                    lemma_div_is_ordered(
                        (MAX_ITERATIONS as int + 1) * b,
                        n + b - 1,
                        b,
                    );
                    lemma_fundamental_div_mod_converse(
                        (MAX_ITERATIONS as int + 1) * b,
                        b,
                        MAX_ITERATIONS as int + 1,
                        0,
                    );
                    assert((MAX_ITERATIONS as int + 1) * b <= n + b - 1) by (nonlinear_arith)
                        requires
                            n > MAX_ITERATIONS as int * b,
                            b > 0,
                    ;
                    assert(q > MAX_ITERATIONS);
                }
                if fmode == FaultMode::TtlFails || (fmode == FaultMode::ExpireFails && !dry_run) {
                    lemma_first_matching(orig, pat);
                    lemma_first_eligible(orig, pat);
                    if !dry_run {
                        assert(store@ =~= orig);
                    }
                }
            }
            return SweepOutcome {
                rule,
                keys_processed: processed,
                iterations,
                error: None,
            };
        }
        cursor = next;
    }
}

} // verus!
