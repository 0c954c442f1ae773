//! Building a report from one run's outputs.

use crate::bundle::Bundle;
use crate::decimal::{pow10, Decimal};
use crate::digest::utf8;
use crate::json::json_int;
use crate::report::{
    canonical_body, canonical_full, law_fingerprint_field_excluded, report_fingerprint_of,
    full_members, report_members, run_info_members, spec_info_json, BundleInfo, Report, RunInfo, SpecInfo, Summary,
};
use crate::runner::RunOutput;
use crate::spec::ast::{strings_view, Spec};
use crate::spec::canonical::spec_fingerprint;
use crate::witness::{Kind, Status, Witness, WitnessResult};
use vstd::arithmetic::div_mod::{lemma_div_is_ordered, lemma_fundamental_div_mod_converse};
use vstd::prelude::*;

verus! {

/// The statuses of a list of results.
pub open spec fn statuses(rs: Seq<WitnessResult>) -> Seq<Status> {
    Seq::new(rs.len(), |i: int| rs[i].status)
}

/// The kinds of a list of witnesses.
pub open spec fn kinds(ws: Seq<Witness>) -> Seq<Kind> {
    Seq::new(ws.len(), |i: int| ws[i].kind)
}

/// How many of `ss` are `s`.
pub open spec fn count_status(ss: Seq<Status>, s: Status) -> nat
    decreases ss.len(),
{
    if ss.len() == 0 {
        0
    } else {
        count_status(ss.drop_last(), s) + if ss.last() == s {
            1nat
        } else {
            0nat
        }
    }
}

/// Counts over the first `n` witnesses, each judged by the result at its
/// position.
pub struct Tally {
    pub hard_total: nat,
    pub hard_passed: nat,
    pub soft_total: nat,
    pub soft_passed: nat,
    /// The soft weight, in millionths.
    pub weight_total: nat,
    /// The soft weight of the passing soft witnesses, in millionths.
    pub weight_passed: nat,
}

/// Whether the result at position `i` is a pass; a witness with no result
/// at its position has not passed.
pub open spec fn passed_at(ss: Seq<Status>, i: int) -> bool {
    0 <= i < ss.len() && ss[i] == Status::Pass
}

/// The tally of the first `n` witness kinds, each judged by `passed_at`.
pub open spec fn tally(ks: Seq<Kind>, ss: Seq<Status>, n: nat) -> Tally
    decreases n,
{
    if n == 0 {
        Tally {
            hard_total: 0,
            hard_passed: 0,
            soft_total: 0,
            soft_passed: 0,
            weight_total: 0,
            weight_passed: 0,
        }
    } else {
        let t = tally(ks, ss, (n - 1) as nat);
        let pass = passed_at(ss, n - 1);
        match ks[n - 1] {
            Kind::Hard => Tally {
                hard_total: t.hard_total + 1,
                hard_passed: t.hard_passed + if pass {
                    1nat
                } else {
                    0nat
                },
                ..t
            },
            Kind::Soft(w) => Tally {
                soft_total: t.soft_total + 1,
                soft_passed: t.soft_passed + if pass {
                    1nat
                } else {
                    0nat
                },
                weight_total: t.weight_total + w.micros as nat,
                weight_passed: t.weight_passed + if pass {
                    w.micros as nat
                } else {
                    0nat
                },
                ..t
            },
        }
    }
}

/// The passed share `passed / total` in millionths, rounded half up; a spec
/// with no soft weight scores one.
pub open spec fn objective_micros(passed: nat, total: nat) -> int {
    if total == 0 {
        1_000_000
    } else {
        ((2 * passed * 1_000_000 + total) / (2 * total)) as int
    }
}

/// What `summarize` computes for the witnesses `ws` and results `rs`.
pub open spec fn summary_of(s: Summary, ws: Seq<Witness>, rs: Seq<WitnessResult>) -> bool {
    let ss = statuses(rs);
    let t = tally(kinds(ws), ss, ws.len());
    &&& s.total == rs.len()
    &&& s.passed == count_status(ss, Status::Pass)
    &&& s.failed == count_status(ss, Status::Fail)
    &&& s.errored == count_status(ss, Status::Error)
    &&& s.skipped == count_status(ss, Status::Skip)
    &&& s.hard_total == t.hard_total
    &&& s.hard_passed == t.hard_passed
    &&& s.soft_total == t.soft_total
    &&& s.soft_passed == t.soft_passed
    &&& s.satisfied == (t.hard_passed == t.hard_total && count_status(ss, Status::Error) == 0)
    &&& s.objective.micros == objective_micros(t.weight_passed, t.weight_total)
}

/// The four statuses partition the results.
pub proof fn lemma_counts_partition(ss: Seq<Status>)
    ensures
        count_status(ss, Status::Pass) + count_status(ss, Status::Fail) + count_status(
            ss,
            Status::Error,
        ) + count_status(ss, Status::Skip) == ss.len(),
    decreases ss.len(),
{
    if ss.len() > 0 {
        lemma_counts_partition(ss.drop_last());
    }
}

/// Passed counts are bounded by totals, every pair is hard or soft, and the
/// soft weight sums stay within `n` times the largest weight.
pub proof fn lemma_tally_bounds(ks: Seq<Kind>, ss: Seq<Status>, n: nat)
    ensures
        tally(ks, ss, n).hard_passed <= tally(ks, ss, n).hard_total,
        tally(ks, ss, n).soft_passed <= tally(ks, ss, n).soft_total,
        tally(ks, ss, n).weight_passed <= tally(ks, ss, n).weight_total,
        tally(ks, ss, n).hard_total + tally(ks, ss, n).soft_total == n,
        tally(ks, ss, n).weight_total <= n * 0xffff_ffff_ffff_ffff,
    decreases n,
{
    if n > 0 {
        lemma_tally_bounds(ks, ss, (n - 1) as nat);
        assert(n * 0xffff_ffff_ffff_ffff == (n - 1) * 0xffff_ffff_ffff_ffff
            + 0xffff_ffff_ffff_ffff) by (nonlinear_arith);
    }
}

/// Every one of the first `n` hard witnesses has a passing result.
pub open spec fn hard_all_pass(ks: Seq<Kind>, ss: Seq<Status>, n: nat) -> bool {
    forall|i: int| 0 <= i < n && #[trigger] ks[i] is Hard ==> passed_at(ss, i)
}

/// No result is an error.
pub open spec fn none_errored(ss: Seq<Status>) -> bool {
    forall|i: int| 0 <= i < ss.len() ==> #[trigger] ss[i] != Status::Error
}

/// The hard counts agree exactly when every hard witness has a passing
/// result; a hard witness without a result counts as failed, and soft
/// witnesses do not enter into it.
pub proof fn law_hard_counts_agree_iff_all_hard_pass(ks: Seq<Kind>, ss: Seq<Status>, n: nat)
    requires
        n <= ks.len(),
    ensures
        (tally(ks, ss, n).hard_passed == tally(ks, ss, n).hard_total) <==> hard_all_pass(
            ks,
            ss,
            n,
        ),
    decreases n,
{
    if n > 0 {
        law_hard_counts_agree_iff_all_hard_pass(ks, ss, (n - 1) as nat);
        lemma_tally_bounds(ks, ss, (n - 1) as nat);
        if hard_all_pass(ks, ss, n) {
            assert(hard_all_pass(ks, ss, (n - 1) as nat));
        }
        if ks[n - 1] is Hard && !passed_at(ss, n - 1) {
            assert(!hard_all_pass(ks, ss, n));
        }
    }
}

/// No error is counted exactly when no result is an error.
pub proof fn lemma_no_error_count(ss: Seq<Status>)
    ensures
        (count_status(ss, Status::Error) == 0) <==> none_errored(ss),
    decreases ss.len(),
{
    if ss.len() > 0 {
        lemma_no_error_count(ss.drop_last());
        if none_errored(ss) {
            assert(none_errored(ss.drop_last())) by {
                assert forall|i: int| 0 <= i < ss.drop_last().len() implies #[trigger] ss.drop_last()[i]
                    != Status::Error by {
                    assert(ss.drop_last()[i] == ss[i]);
                }
            }
            assert(ss[ss.len() - 1] != Status::Error);
        }
        if none_errored(ss.drop_last()) && ss.last() != Status::Error {
            assert forall|i: int| 0 <= i < ss.len() implies #[trigger] ss[i] != Status::Error by {
                if i < ss.len() - 1 {
                    assert(ss.drop_last()[i] == ss[i]);
                }
            }
        }
        if !none_errored(ss.drop_last()) {
            let i = choose|i: int| 0 <= i < ss.drop_last().len() && #[trigger] ss.drop_last()[i]
                == Status::Error;
            assert(ss[i] == Status::Error);
        }
    }
}

/// Setting one status changes the counts of the old and the new status by
/// one each.
pub proof fn lemma_count_update(ss: Seq<Status>, k: int, x: Status, st: Status)
    requires
        0 <= k < ss.len(),
    ensures
        count_status(ss.update(k, x), st) + (if ss[k] == st {
            1int
        } else {
            0int
        }) == count_status(ss, st) + (if x == st {
            1int
        } else {
            0int
        }),
    decreases ss.len(),
{
    let u = ss.update(k, x);
    if k == ss.len() - 1 {
        assert(u.drop_last() =~= ss.drop_last());
    } else {
        lemma_count_update(ss.drop_last(), k, x, st);
        assert(u.drop_last() =~= ss.drop_last().update(k, x));
    }
}

/// When every witness that passed under `a` also passes under `b`, the
/// totals agree and no passed count or passed weight is lower under `b`.
pub proof fn lemma_tally_monotone(ks: Seq<Kind>, a: Seq<Status>, b: Seq<Status>, n: nat)
    requires
        forall|i: int| 0 <= i < n && #[trigger] passed_at(a, i) ==> passed_at(b, i),
    ensures
        tally(ks, b, n).hard_total == tally(ks, a, n).hard_total,
        tally(ks, b, n).soft_total == tally(ks, a, n).soft_total,
        tally(ks, b, n).weight_total == tally(ks, a, n).weight_total,
        tally(ks, b, n).hard_passed >= tally(ks, a, n).hard_passed,
        tally(ks, b, n).soft_passed >= tally(ks, a, n).soft_passed,
        tally(ks, b, n).weight_passed >= tally(ks, a, n).weight_passed,
    decreases n,
{
    if n > 0 {
        lemma_tally_monotone(ks, a, b, (n - 1) as nat);
        assert(passed_at(a, n - 1) ==> passed_at(b, n - 1));
    }
}

/// The objective does not fall when more weight passes out of the same
/// total.
pub proof fn lemma_objective_monotone(p1: nat, p2: nat, t: nat)
    requires
        p1 <= p2,
    ensures
        objective_micros(p1, t) <= objective_micros(p2, t),
{
    if t > 0 {
        assert(2 * p1 * 1_000_000 + t <= 2 * p2 * 1_000_000 + t) by (nonlinear_arith)
            requires
                p1 <= p2,
        ;
        lemma_div_is_ordered((2 * p1 * 1_000_000 + t) as int, (2 * p2 * 1_000_000 + t) as int, (2 * t) as int);
    }
}

/// Turning one result that did not pass into a pass adds one to `passed`,
/// lowers none of the passed counts or the objective, and keeps a satisfied
/// spec satisfied.
pub proof fn law_pass_never_hurts(
    ws: Seq<Witness>,
    rs: Seq<WitnessResult>,
    rs2: Seq<WitnessResult>,
    k: int,
    s: Summary,
    s2: Summary,
)
    requires
        0 <= k < rs.len(),
        rs2.len() == rs.len(),
        forall|i: int| 0 <= i < rs.len() && i != k ==> #[trigger] rs2[i].status == rs[i].status,
        rs[k].status != Status::Pass,
        rs2[k].status == Status::Pass,
        summary_of(s, ws, rs),
        summary_of(s2, ws, rs2),
    ensures
        s2.total == s.total,
        s2.passed == s.passed + 1,
        s2.hard_total == s.hard_total,
        s2.soft_total == s.soft_total,
        s2.hard_passed >= s.hard_passed,
        s2.soft_passed >= s.soft_passed,
        s.satisfied ==> s2.satisfied,
        s2.objective.micros >= s.objective.micros,
{
    let ss = statuses(rs);
    let ss2 = statuses(rs2);
    assert(ss2 =~= ss.update(k, Status::Pass));
    lemma_count_update(ss, k, Status::Pass, Status::Pass);
    lemma_count_update(ss, k, Status::Pass, Status::Error);
    let ks = kinds(ws);
    let n = ws.len();
    assert forall|i: int| 0 <= i < n && #[trigger] passed_at(ss, i) implies passed_at(ss2, i) by {
        if i != k {
            assert(ss2[i] == ss[i]);
        }
    }
    lemma_tally_monotone(ks, ss, ss2, n);
    lemma_tally_bounds(ks, ss2, n);
    lemma_objective_monotone(tally(ks, ss, n).weight_passed, tally(ks, ss2, n).weight_passed,
        tally(ks, ss, n).weight_total);
}

/// `10 * r = d * t + r2` with `d` a digit: one step of long division, done
/// with additions modulo `t` so that nothing overflows.
fn times_ten_divmod(r: u128, t: u128) -> (res: (u128, u128))
    requires
        r < t,
    ensures
        res.0 < 10,
        res.1 < t,
        10 * r == res.0 * t + res.1,
{
    let mut acc: u128 = 0;
    let mut d: u128 = 0;
    let mut k: u128 = 0;
    while k < 10
        invariant
            k <= 10,
            r < t,
            acc < t,
            d <= k,
            k * r == d * t + acc,
        decreases 10 - k,
    {
        if acc >= t - r {
            let ghost acc0 = acc;
            let ghost d0 = d;
            acc = acc - (t - r);
            d = d + 1;
            assert((k + 1) * r == d * t + acc) by (nonlinear_arith)
                requires
                    k * r == d0 * t + acc0,
                    d == d0 + 1,
                    acc == acc0 + r - t,
            ;
        } else {
            let ghost acc0 = acc;
            acc = acc + r;
            assert((k + 1) * r == d * t + acc) by (nonlinear_arith)
                requires
                    k * r == d * t + acc0,
                    acc == acc0 + r,
            ;
        }
        k = k + 1;
    }
    assert(d < 10) by (nonlinear_arith)
        requires
            10 * r == d * t + acc,
            r < t,
            0 <= acc,
            d <= 10,
    ;
    (d, acc)
}

proof fn lemma_pow10_below_six(k: nat)
    requires
        k < 6,
    ensures
        pow10(k) <= 100_000,
{
    assert(pow10(0) == 1);
    assert(pow10(1) == 10);
    assert(pow10(2) == 100);
    assert(pow10(3) == 1000);
    assert(pow10(4) == 10000);
    assert(pow10(5) == 100000);
}

/// `passed / total` in millionths, rounded half up.
pub fn ratio_micros(passed: u128, total: u128) -> (m: u64)
    requires
        passed <= total,
        0 < total,
    ensures
        m == objective_micros(passed as nat, total as nat),
        m <= 1_000_000,
{
    let ghost x: int = 2 * passed * 1_000_000 + total;
    if passed == total {
        assert(x == 1_000_000 * (2 * total) + total) by (nonlinear_arith)
            requires
                x == 2 * passed * 1_000_000 + total,
                passed == total,
        ;
        proof {
            lemma_fundamental_div_mod_converse(x, 2 * total, 1_000_000, total as int);
        }
        return 1_000_000;
    }
    let mut m: u64 = 0;
    let mut r: u128 = passed;
    let mut k: usize = 0;
    assert(pow10(0) == 1);
    while k < 6
        invariant
            k <= 6,
            r < total,
            passed < total,
            passed * pow10(k as nat) == m * total + r,
            m < pow10(k as nat),
        decreases 6 - k,
    {
        let (d, r2) = times_ten_divmod(r, total);
        let ghost p = pow10(k as nat);
        let ghost m0 = m;
        assert(pow10((k + 1) as nat) == 10 * p);
        proof {
            lemma_pow10_below_six(k as nat);
        }
        m = m * 10 + d as u64;
        assert(passed * pow10((k + 1) as nat) == m * total + r2) by (nonlinear_arith)
            requires
                passed * p == m0 * total + r,
                10 * r == d * total + r2,
                m == m0 * 10 + d,
                pow10((k + 1) as nat) == 10 * p,
        ;
        r = r2;
        k = k + 1;
    }
    assert(pow10(6) == 1_000_000) by {
        reveal_with_fuel(pow10, 7);
    }
    if r >= total - r {
        assert(x == (m + 1) * (2 * total) + (2 * r - total)) by (nonlinear_arith)
            requires
                x == 2 * passed * 1_000_000 + total,
                passed * 1_000_000 == m * total + r,
        ;
        proof {
            lemma_fundamental_div_mod_converse(x, 2 * total, m + 1, 2 * r - total);
        }
        m + 1
    } else {
        assert(x == m * (2 * total) + (2 * r + total)) by (nonlinear_arith)
            requires
                x == 2 * passed * 1_000_000 + total,
                passed * 1_000_000 == m * total + r,
        ;
        proof {
            lemma_fundamental_div_mod_converse(x, 2 * total, m as int, 2 * r + total);
        }
        m
    }
}

/// Counts the results by status and the witnesses by kind, and scores the
/// soft weight. Each witness is judged by the result at its position; a
/// witness with no result there has failed. Results past the last witness
/// are counted by status only.
pub fn summarize(spec: &Spec, results: &[WitnessResult]) -> (s: Summary)
    ensures
        summary_of(s, spec.witnesses@, results@),
        s.total == s.passed + s.failed + s.errored + s.skipped,
        s.hard_passed <= s.hard_total,
        s.soft_passed <= s.soft_total,
        s.hard_total + s.soft_total == spec.witnesses@.len(),
        s.objective.micros <= 1_000_000,
        s.satisfied <==> hard_all_pass(
            kinds(spec.witnesses@),
            statuses(results@),
            spec.witnesses@.len(),
        ) && none_errored(statuses(results@)),
{
    let ghost ss = statuses(results@);
    let ghost ks = kinds(spec.witnesses@);
    let n = results.len();
    let mut passed: usize = 0;
    let mut failed: usize = 0;
    let mut errored: usize = 0;
    let mut skipped: usize = 0;
    let mut i: usize = 0;
    while i < n
        invariant
            n == results@.len(),
            i <= n,
            ss == statuses(results@),
            passed == count_status(ss.take(i as int), Status::Pass),
            failed == count_status(ss.take(i as int), Status::Fail),
            errored == count_status(ss.take(i as int), Status::Error),
            skipped == count_status(ss.take(i as int), Status::Skip),
            passed + failed + errored + skipped == i,
        decreases n - i,
    {
        proof {
            assert(ss.take(i + 1).drop_last() =~= ss.take(i as int));
            lemma_counts_partition(ss.take(i as int));
        }
        match results[i].status {
            Status::Pass => passed = passed + 1,
            Status::Fail => failed = failed + 1,
            Status::Skip => skipped = skipped + 1,
            Status::Error => errored = errored + 1,
        }
        i = i + 1;
    }
    assert(ss.take(n as int) =~= ss);
    proof {
        lemma_counts_partition(ss);
    }
    let m = spec.witnesses.len();
    let mut hard_total: usize = 0;
    let mut hard_passed: usize = 0;
    let mut soft_total: usize = 0;
    let mut soft_passed: usize = 0;
    let mut weight_total: u128 = 0;
    let mut weight_passed: u128 = 0;
    let mut j: usize = 0;
    while j < m
        invariant
            m == spec.witnesses@.len(),
            n == results@.len(),
            j <= m,
            ss == statuses(results@),
            ks == kinds(spec.witnesses@),
            hard_total == tally(ks, ss, j as nat).hard_total,
            hard_passed == tally(ks, ss, j as nat).hard_passed,
            soft_total == tally(ks, ss, j as nat).soft_total,
            soft_passed == tally(ks, ss, j as nat).soft_passed,
            weight_total == tally(ks, ss, j as nat).weight_total,
            weight_passed == tally(ks, ss, j as nat).weight_passed,
        decreases m - j,
    {
        proof {
            lemma_tally_bounds(ks, ss, j as nat);
            lemma_tally_bounds(ks, ss, (j + 1) as nat);
            assert((j + 1) * 0xffff_ffff_ffff_ffff <= 0xffff_ffff_ffff_ffff
                * 0xffff_ffff_ffff_ffff) by (nonlinear_arith)
                requires
                    j + 1 <= 0xffff_ffff_ffff_ffff,
            ;
        }
        let pass = j < n && match results[j].status {
            Status::Pass => true,
            _ => false,
        };
        match spec.witnesses[j].kind {
            Kind::Hard => {
                hard_total = hard_total + 1;
                if pass {
                    hard_passed = hard_passed + 1;
                }
            },
            Kind::Soft(w) => {
                soft_total = soft_total + 1;
                weight_total = weight_total + w.micros as u128;
                if pass {
                    soft_passed = soft_passed + 1;
                    weight_passed = weight_passed + w.micros as u128;
                }
            },
        }
        j = j + 1;
    }
    proof {
        lemma_tally_bounds(ks, ss, m as nat);
        law_hard_counts_agree_iff_all_hard_pass(ks, ss, m as nat);
        lemma_no_error_count(ss);
    }
    let objective = if weight_total > 0 {
        Decimal { micros: ratio_micros(weight_passed, weight_total) }
    } else {
        Decimal { micros: 1_000_000 }
    };
    let satisfied = hard_total == hard_passed && errored == 0;
    Summary {
        total: n,
        passed,
        failed,
        errored,
        skipped,
        hard_total,
        hard_passed,
        soft_total,
        soft_passed,
        satisfied,
        objective,
    }
}

/// The number of UTF-8 bytes in the contents of `files`.
pub open spec fn content_bytes(files: Seq<(Seq<char>, Seq<char>)>) -> nat
    decreases files.len(),
{
    if files.len() == 0 {
        0
    } else {
        content_bytes(files.drop_last()) + utf8(files.last().1).len()
    }
}

proof fn lemma_content_bytes_prefix(files: Seq<(Seq<char>, Seq<char>)>, i: int)
    requires
        0 <= i <= files.len(),
    ensures
        content_bytes(files.take(i)) <= content_bytes(files),
    decreases files.len() - i,
{
    if i < files.len() {
        lemma_content_bytes_prefix(files, i + 1);
        assert(files.take(i + 1).drop_last() =~= files.take(i));
    } else {
        assert(files.take(i) =~= files);
    }
}

/// What `build_at` makes of its inputs: the report's records are copied
/// from the spec, the bundle and the run, its summary is that of the
/// results, and its fingerprint is that of its own canonical body.
pub open spec fn built_from(
    r: Report,
    spec_path: Seq<char>,
    spec: Spec,
    bundle: Bundle,
    run: RunOutput,
    results: Seq<WitnessResult>,
    timestamp_ms: u64,
) -> bool {
    &&& r.assay_version@ == "2.0.0"@
    &&& r.spec.name@ == spec.name@
    &&& r.spec.path@ == spec_path
    &&& r.spec.fingerprint@ == spec_fingerprint(spec@)
    &&& strings_view(r.spec.targets@) == strings_view(spec.targets@)
    &&& r.spec.runner@ == spec.runner@
    &&& r.spec.lang@ == spec.lang@
    &&& r.bundle.fingerprint@ == bundle.fingerprint@
    &&& r.bundle.file_count == bundle.files@.len()
    &&& r.bundle.byte_count == content_bytes(bundle.files@)
    &&& r.run == (RunInfo {
        timestamp_ms,
        duration_ms: run.duration_ms,
        exit_code: run.exit_code,
        cached: false,
    })
    &&& r.witnesses@ == results
    &&& summary_of(r.summary, spec.witnesses@, results)
    &&& r.report_fingerprint@ == report_fingerprint_of(r)
}

fn clone_strings(v: &Vec<String>) -> (r: Vec<String>)
    ensures
        strings_view(r@) == strings_view(v@),
{
    let mut r: Vec<String> = Vec::new();
    let n = v.len();
    let mut i: usize = 0;
    while i < n
        invariant
            n == v@.len(),
            i <= n,
            r@.len() == i,
            forall|j: int| 0 <= j < i ==> r@[j]@ == v@[j]@,
        decreases n - i,
    {
        r.push(v[i].clone());
        i = i + 1;
    }
    assert(strings_view(r@) =~= strings_view(v@));
    r
}

/// Builds the report of one run whose clock read `timestamp_ms`: the spec
/// and bundle records, the run record, the results as given, their summary,
/// and the fingerprint of the canonical body.
pub fn build_at(
    spec_path: &str,
    spec: &Spec,
    bundle: &Bundle,
    run: &RunOutput,
    witness_results: Vec<WitnessResult>,
    timestamp_ms: u64,
) -> (r: Report)
    requires
        content_bytes(bundle.files@) <= usize::MAX,
    ensures
        built_from(r, spec_path@, *spec, *bundle, *run, witness_results@, timestamp_ms),
        r.run.exit_code == run.exit_code,
        r.run.duration_ms == run.duration_ms,
        r.run.timestamp_ms == timestamp_ms,
        !r.run.cached,
        r.witnesses@ == witness_results@,
{
    let spec_info = SpecInfo {
        name: spec.name.clone(),
        path: String::from_str(spec_path),
        fingerprint: spec.fingerprint(),
        targets: clone_strings(&spec.targets),
        runner: spec.runner.clone(),
        lang: spec.lang.clone(),
    };
    let n = bundle.files.len();
    let mut byte_count: usize = 0;
    let mut i: usize = 0;
    while i < n
        invariant
            n == bundle.files@.len(),
            i <= n,
            content_bytes(bundle.files@) <= usize::MAX,
            byte_count == content_bytes(bundle.files@.take(i as int)),
        decreases n - i,
    {
        let (_path, content) = bundle.files.entry(i);
        proof {
            assert(bundle.files@.take(i + 1).drop_last() =~= bundle.files@.take(i as int));
            lemma_content_bytes_prefix(bundle.files@, i + 1);
        }
        byte_count = byte_count + content.as_str().as_bytes().len();
        i = i + 1;
    }
    assert(bundle.files@.take(n as int) =~= bundle.files@);
    let bundle_info = BundleInfo {
        fingerprint: bundle.fingerprint.clone(),
        file_count: n,
        byte_count,
    };
    let run_info = RunInfo {
        timestamp_ms,
        duration_ms: run.duration_ms,
        exit_code: run.exit_code,
        cached: false,
    };
    let summary = summarize(spec, witness_results.as_slice());
    let mut report = Report {
        assay_version: String::from_str("2.0.0"),
        spec: spec_info,
        bundle: bundle_info,
        run: run_info,
        witnesses: witness_results,
        summary,
        report_fingerprint: String::new(),
    };
    let fp = report.compute_fingerprint();
    let ghost r0 = report;
    report.report_fingerprint = fp;
    proof {
        law_fingerprint_field_excluded(r0, report);
    }
    report
}

/// The clock, as milliseconds since the Unix epoch (`SystemTime::now` and
/// `duration_since(UNIX_EPOCH)`, 0 when the clock is set before the epoch).
/// What the clock reads is not stated.
#[verifier::external_body]
fn now_ms() -> u64 {
    match std::time::SystemTime::now().duration_since(std::time::UNIX_EPOCH) {
        Ok(d) => d.as_millis() as u64,
        Err(_) => 0,
    }
}

/// Builds the report of one run (see `build_at`), stamped with the time of
/// the call.
pub fn build(
    spec_path: &str,
    spec: &Spec,
    bundle: &Bundle,
    run: &RunOutput,
    witness_results: Vec<WitnessResult>,
) -> (r: Report)
    requires
        content_bytes(bundle.files@) <= usize::MAX,
    ensures
        built_from(r, spec_path@, *spec, *bundle, *run, witness_results@, r.run.timestamp_ms),
        r.run.exit_code == run.exit_code,
        r.run.duration_ms == run.duration_ms,
        !r.run.cached,
        r.witnesses@ == witness_results@,
{
    build_at(spec_path, spec, bundle, run, witness_results, now_ms())
}

/// A built report records the run as it happened: the runner's exit code
/// and duration, the clock reading it was built at, not cached, and the
/// results as given; its JSON run record holds that exit code.
pub proof fn law_built_report_records_run(
    r: Report,
    spec_path: Seq<char>,
    spec: Spec,
    bundle: Bundle,
    run: RunOutput,
    results: Seq<WitnessResult>,
    timestamp_ms: u64,
)
    requires
        built_from(r, spec_path, spec, bundle, run, results, timestamp_ms),
    ensures
        r.run.exit_code == run.exit_code,
        r.run.duration_ms == run.duration_ms,
        r.run.timestamp_ms == timestamp_ms,
        !r.run.cached,
        r.witnesses@ == results,
        run_info_members(r.run)[2] == ("exit_code"@, json_int(run.exit_code as int)),
{
}

/// Two reports built from the same inputs at the same time are the same
/// text, fingerprint included; built at different times, they differ only
/// in the run's timestamp.
pub proof fn law_build_deterministic(
    r1: Report,
    r2: Report,
    spec_path: Seq<char>,
    spec: Spec,
    bundle: Bundle,
    run: RunOutput,
    results: Seq<WitnessResult>,
    t1: u64,
    t2: u64,
)
    requires
        built_from(r1, spec_path, spec, bundle, run, results, t1),
        built_from(r2, spec_path, spec, bundle, run, results, t2),
    ensures
        t1 == t2 ==> canonical_full(r1) == canonical_full(r2),
        canonical_body(r1) == canonical_body(
            Report { run: RunInfo { timestamp_ms: t1, ..r2.run }, ..r2 },
        ),
{
    assert(r1.summary == r2.summary);
    assert(spec_info_json(r1.spec) =~= spec_info_json(r2.spec)) by {
        assert(Seq::new(r1.spec.targets@.len(), |i: int| r1.spec.targets@[i]@) =~= Seq::new(
            r2.spec.targets@.len(),
            |i: int| r2.spec.targets@[i]@,
        )) by {
            assert(strings_view(r1.spec.targets@) == strings_view(r2.spec.targets@));
            assert(forall|i: int|
                0 <= i < r1.spec.targets@.len() ==> #[trigger] strings_view(r1.spec.targets@)[i]
                    == r1.spec.targets@[i]@);
        }
    }
    let r3 = Report { run: RunInfo { timestamp_ms: t1, ..r2.run }, ..r2 };
    assert(report_members(r1) =~= report_members(r3));
    if t1 == t2 {
        assert(report_members(r1) =~= report_members(r2));
        assert(canonical_body(r1) == canonical_body(r2));
        assert(r1.report_fingerprint@ == r2.report_fingerprint@);
        assert(full_members(r1) =~= full_members(r2));
    }
}

} // verus!
