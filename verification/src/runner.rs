//! The test runner: run a strategy test (its report through the backtest
//! engine, its properties, its fuzz runs) and judge it, bless its golden, and
//! collect a suite ordered by test id.

use vstd::prelude::*;
use wickra_backtest_core::BacktestError;
use crate::json::{flat, flatten_items, flatten_members, flatten_spec, index_key, member_key, Json};
use crate::keymap::{map_entries, KeyMap};
use crate::property::{check_all, check_ok, is_finite_bits};
use crate::tolerance::{
    diff_reports, diffed, golden_diff, lemma_self_diff_empty, lemma_swapped_diff_mirrors, mirrored, resolve_spec,
    symmetric_verdicts,
};
use crate::model::{
    error_text, verdict, Comparison, Error, FieldDiff, FuzzFailure, FuzzSpec, Property, PropertyResult, StrategyTest,
    SuiteResult, TestResult, Tolerance,
};
use crate::text::{chars_le, chars_lt, concat, lemma_lt_order, str_less};

verus! {

/// The backtest engine's error type.
#[verifier::external_type_specification]
#[verifier::external_body]
pub struct ExBacktestError(BacktestError);

/// `wickra_backtest_core::run_json`: parses the request, runs the backtest and
/// returns the report as JSON text, or the engine's error. Nothing is claimed
/// of the outcome: the engine's indicators and metrics call the platform's
/// floating-point math library, so the report text for one request may differ
/// in its last digits between machines.
#[verifier::external_body]
fn engine_run_json(request: &str) -> (r: Result<String, BacktestError>) {
    wickra_backtest_core::run_json(request)
}

/// The request document for one backtest: the strategy and the candle series,
/// each already in JSON form.
pub open spec fn request_text(strategy: Seq<char>, candles: Seq<char>) -> Seq<char> {
    seq!['{', '"', 's', 'p', 'e', 'c', '"', ':'] + strategy
        + seq![',', '"', 'c', 'a', 'n', 'd', 'l', 'e', 's', '"', ':'] + candles + seq!['}']
}

/// Frames the engine request `{"spec":<strategy>,"candles":<candles>}` from the
/// strategy and the candles in JSON form. The strategy is forwarded as it is.
pub fn backtest_request(strategy: &str, candles: &str) -> (s: String)
    ensures
        s@ == request_text(strategy@, candles@),
{
    let head = concat("{\"spec\":", strategy);
    let mid = concat(head.as_str(), ",\"candles\":");
    let body = concat(mid.as_str(), candles);
    let s = concat(body.as_str(), "}");
    proof {
        reveal_strlit("{\"spec\":");
        reveal_strlit(",\"candles\":");
        reveal_strlit("}");
        assert(s@ =~= request_text(strategy@, candles@));
    }
    s
}

/// Runs one backtest request through the engine and returns its report
/// document; an engine rejection becomes [`Error::Backtest`] with the engine's
/// message. What the report holds is the engine's: the library claims nothing
/// of it.
pub fn run_backtest(request: &str) -> (r: Result<String, Error>)
    ensures
        r matches Err(e) ==> e is Backtest,
{
    match engine_run_json(request) {
        Ok(s) => Ok(s),
        Err(e) => Err(Error::Backtest(e.to_string())),
    }
}

/// `missing dataset: <name>`
pub open spec fn missing_dataset_text(name: Seq<char>) -> Seq<char> {
    seq!['m', 'i', 's', 's', 'i', 'n', 'g', ' ', 'd', 'a', 't', 'a', 's', 'e', 't', ':', ' '] + name
}

/// The dataset a test runs on, looked up by name; a name with no dataset is
/// [`Error::Data`] `missing dataset: <name>`.
pub fn find_dataset<'a, V>(data: &'a KeyMap<V>, dataset_ref: &str) -> (r: Result<&'a V, Error>)
    ensures
        match r {
            Ok(v) => data@.contains_key(dataset_ref@) && *v == data@[dataset_ref@],
            Err(e) => !data@.contains_key(dataset_ref@) && (e matches Error::Data(m)
                && m@ == missing_dataset_text(dataset_ref@)),
        },
{
    match data.get(dataset_ref) {
        Some(v) => Ok(v),
        None => {
            let m = concat("missing dataset: ", dataset_ref);
            proof {
                reveal_strlit("missing dataset: ");
                assert(m@ =~= missing_dataset_text(dataset_ref@));
            }
            Err(Error::Data(m))
        },
    }
}

/// The failures a fuzz run records: each property result that did not pass,
/// in order, tagged with the run.
pub open spec fn fuzz_failures_of(run: u32, results: Seq<PropertyResult>) -> Seq<FuzzFailure>
    decreases results.len(),
{
    if results.len() == 0 {
        Seq::empty()
    } else {
        let rest = fuzz_failures_of(run, results.drop_last());
        let r = results.last();
        if r.passed {
            rest
        } else {
            rest.push(FuzzFailure { run, property: r.property, detail: r.detail })
        }
    }
}

/// The fuzz failures of run `run`: every property result that did not pass,
/// in the order the properties were given.
pub fn fuzz_failures(run: u32, results: Vec<PropertyResult>) -> (r: Vec<FuzzFailure>)
    ensures
        r@ == fuzz_failures_of(run, results@),
{
    let ghost all = results@;
    let mut rest = results;
    let n = rest.len();
    let mut r: Vec<FuzzFailure> = Vec::new();
    let mut i: usize = 0;
    while rest.len() > 0
        invariant
            i + rest@.len() == all.len(),
            all.len() == n,
            rest@ == all.skip(i as int),
            r@ == fuzz_failures_of(run, all.take(i as int)),
        decreases rest@.len(),
    {
        let p = rest.remove(0);
        assert(all.take(i + 1).drop_last() =~= all.take(i as int));
        assert(all.take(i + 1).last() == p);
        assert(rest@ =~= all.skip(i + 1));
        if !p.passed {
            r.push(FuzzFailure { run, property: p.property, detail: p.detail });
        }
        i = i + 1;
    }
    assert(all.take(i as int) =~= all);
    r
}

/// Assembles one test's result from its three axes; the verdict is
/// [`TestResult::is_pass`]'s, and no report hash is given.
pub fn test_result(
    id: &String,
    diff: Vec<FieldDiff>,
    property_results: Vec<PropertyResult>,
    fuzz_failures: Vec<FuzzFailure>,
) -> (t: TestResult)
    ensures
        t.id@ == id@,
        t.passed == verdict(diff@, property_results@, fuzz_failures@),
        t.passed == (diff@.len() == 0 && fuzz_failures@.len() == 0
            && forall|i: int| 0 <= i < property_results@.len() ==> (#[trigger] property_results@[i]).passed),
        t.diff@ == diff@,
        t.property_results@ == property_results@,
        t.fuzz_failures@ == fuzz_failures@,
        t.report_hash is None,
        t.error is None,
{
    let passed = TestResult::is_pass(diff.as_slice(), property_results.as_slice(), fuzz_failures.as_slice());
    TestResult {
        id: id.clone(),
        passed,
        diff,
        property_results,
        fuzz_failures,
        report_hash: None,
        error: None,
    }
}

/// The number of passing results.
pub open spec fn count_passed(results: Seq<TestResult>) -> nat
    decreases results.len(),
{
    if results.len() == 0 {
        0
    } else {
        count_passed(results.drop_last()) + if results.last().passed { 1nat } else { 0nat }
    }
}

/// `out` is `input` ordered by id as a stable sort orders it: `order[k]` is
/// the input position of the `k`-th result, each position taken once, ids
/// ascend, and results with equal ids keep their input order.
pub open spec fn stable_by_id(input: Seq<TestResult>, out: Seq<TestResult>, order: Seq<int>) -> bool {
    &&& order.len() == input.len()
    &&& out.len() == input.len()
    &&& forall|k: int| 0 <= k < order.len() ==> 0 <= #[trigger] order[k] < input.len()
    &&& forall|k: int| 0 <= k < order.len() ==> #[trigger] out[k] == input[order[k]]
    &&& forall|k: int, l: int| 0 <= k < l < order.len() ==> #[trigger] order[k] != #[trigger] order[l]
    &&& forall|k: int, l: int| 0 <= k < l < out.len() ==> chars_le(#[trigger] out[k].id@, #[trigger] out[l].id@)
    &&& forall|k: int, l: int| 0 <= k < l < out.len() && #[trigger] out[k].id@ == #[trigger] out[l].id@
        ==> order[k] < order[l]
}

/// `s` is the suite of `results`: the results in a stable order by id, with
/// the number that passed and the number that failed.
pub open spec fn suite_of(results: Seq<TestResult>, s: SuiteResult) -> bool {
    &&& exists|order: Seq<int>| stable_by_id(results, s.results@, order)
    &&& s.results@.to_multiset() == results.to_multiset()
    &&& s.passed == count_passed(s.results@)
    &&& s.passed + s.failed == results.len()
}

/// `t` is the result of a test, with id `id`, that could not be run because
/// of `e`: a failing result that carries the error's text and nothing else.
pub open spec fn unrunnable(id: Seq<char>, e: Error, t: TestResult) -> bool {
    &&& t.id@ == id
    &&& !t.passed
    &&& t.diff@.len() == 0
    &&& t.property_results@.len() == 0
    &&& t.fuzz_failures@.len() == 0
    &&& t.report_hash is None
    &&& t.error matches Some(m) && m@ == error_text(e)
}

/// The failing result of a test that could not be run.
pub fn unrunnable_result(id: String, e: Error) -> (t: TestResult)
    ensures
        unrunnable(id@, e, t),
{
    TestResult {
        id,
        passed: false,
        diff: Vec::new(),
        property_results: Vec::new(),
        fuzz_failures: Vec::new(),
        report_hash: None,
        error: Some(e.message()),
    }
}

/// Assembles a suite from its test results: the results sorted by id (a
/// stable sort), the number that passed and the number that failed.
pub fn assemble_suite(results: Vec<TestResult>) -> (s: SuiteResult)
    ensures
        exists|order: Seq<int>| stable_by_id(results@, s.results@, order),
        s.results@.to_multiset() == results@.to_multiset(),
        s.passed == count_passed(s.results@),
        s.passed + s.failed == results@.len(),
{
    let ghost input = results@;
    let ghost mut order: Seq<int> = Seq::empty();
    let mut rest = results;
    let n = rest.len();
    let mut out: Vec<TestResult> = Vec::new();
    let mut i: usize = 0;
    proof { lemma_lt_order(); }
    assert(out@ =~= input.take(0));
    while rest.len() > 0
        invariant
            i + rest@.len() == input.len(),
            input.len() == n,
            rest@ == input.skip(i as int),
            out@.len() == i,
            out@.to_multiset() == input.take(i as int).to_multiset(),
            stable_by_id(input.take(i as int), out@, order),
            forall|k: int| 0 <= k < order.len() ==> #[trigger] order[k] < i,
            forall|k: int| 0 <= k < i ==> input.take(i as int)[k] == #[trigger] input[k],
            forall|a: Seq<char>| !#[trigger] chars_lt(a, a),
            forall|a: Seq<char>, b: Seq<char>| #[trigger] chars_lt(a, b) ==> !chars_lt(b, a),
            forall|a: Seq<char>, b: Seq<char>, c: Seq<char>|
                #[trigger] chars_lt(a, b) && #[trigger] chars_lt(b, c) ==> chars_lt(a, c),
            forall|a: Seq<char>, b: Seq<char>| a != b ==> #[trigger] chars_lt(a, b) || #[trigger] chars_lt(b, a),
        decreases rest@.len(),
    {
        let x = rest.remove(0);
        assert(x == input[i as int]);
        assert(rest@ =~= input.skip(i + 1));
        let mut j: usize = 0;
        while j < out.len()
            invariant
                j <= out@.len(),
                forall|m: int| 0 <= m < j ==> !chars_lt(x.id@, #[trigger] out@[m].id@),
            ensures
                j <= out@.len(),
                forall|m: int| 0 <= m < j ==> !chars_lt(x.id@, #[trigger] out@[m].id@),
                j == out@.len() || chars_lt(x.id@, out@[j as int].id@),
            decreases out@.len() - j,
        {
            if str_less(x.id.as_str(), out[j].id.as_str()) {
                break;
            }
            j = j + 1;
        }
        let ghost old_out = out@;
        let ghost old_order = order;
        let ghost xid = x.id@;
        out.insert(j, x);
        proof {
            broadcast use vstd::seq_lib::group_to_multiset_ensures;
            assert(out@ == old_out.insert(j as int, input[i as int]));
            assert(input.take(i + 1) =~= input.take(i as int).push(input[i as int]));
            order = old_order.insert(j as int, i as int);
            let tin = input.take(i + 1);
            assert forall|k: int| 0 <= k < order.len() implies 0 <= #[trigger] order[k] < tin.len() by {
                if k < j {
                    assert(order[k] == old_order[k]);
                } else if k > j {
                    assert(order[k] == old_order[k - 1]);
                }
            }
            assert forall|k: int| 0 <= k < order.len() implies #[trigger] out@[k] == tin[order[k]] by {
                if k < j {
                    assert(out@[k] == old_out[k]);
                    assert(order[k] == old_order[k]);
                } else if k > j {
                    assert(out@[k] == old_out[k - 1]);
                    assert(order[k] == old_order[k - 1]);
                }
            }
            assert forall|k: int, l: int| 0 <= k < l < order.len() implies #[trigger] order[k] != #[trigger] order[l] by {
                if k != j && l != j {
                    let k0 = if k < j { k } else { k - 1 };
                    let l0 = if l < j { l } else { l - 1 };
                    assert(order[k] == old_order[k0]);
                    assert(order[l] == old_order[l0]);
                    assert(old_order[k0] != old_order[l0]);
                } else if k == j {
                    assert(order[l] == old_order[l - 1]);
                } else {
                    assert(order[k] == old_order[k]);
                }
            }
            assert forall|k: int, l: int| 0 <= k < l < out@.len() implies
                chars_le(#[trigger] out@[k].id@, #[trigger] out@[l].id@) by {
                if k != j && l != j {
                    let k0 = if k < j { k } else { k - 1 };
                    let l0 = if l < j { l } else { l - 1 };
                    assert(out@[k] == old_out[k0]);
                    assert(out@[l] == old_out[l0]);
                    assert(chars_le(old_out[k0].id@, old_out[l0].id@));
                } else if k == j {
                    assert(out@[l] == old_out[l - 1]);
                    assert(chars_lt(xid, old_out[j as int].id@));
                    if l - 1 > j {
                        assert(chars_le(old_out[j as int].id@, old_out[l - 1].id@));
                    }
                } else {
                    assert(out@[k] == old_out[k]);
                    assert(!chars_lt(xid, old_out[k].id@));
                }
            }
            assert forall|k: int, l: int| 0 <= k < l < out@.len() && #[trigger] out@[k].id@ == #[trigger] out@[l].id@
                implies order[k] < order[l] by {
                if k != j && l != j {
                    let k0 = if k < j { k } else { k - 1 };
                    let l0 = if l < j { l } else { l - 1 };
                    assert(out@[k] == old_out[k0]);
                    assert(out@[l] == old_out[l0]);
                    assert(order[k] == old_order[k0]);
                    assert(order[l] == old_order[l0]);
                } else if k == j {
                    assert(out@[l] == old_out[l - 1]);
                    assert(chars_lt(xid, old_out[j as int].id@));
                    if l - 1 > j {
                        assert(chars_le(old_out[j as int].id@, old_out[l - 1].id@));
                    }
                } else {
                    assert(order[k] == old_order[k]);
                }
            }
            assert(stable_by_id(tin, out@, order));
            assert forall|k: int| 0 <= k < i + 1 implies tin[k] == #[trigger] input[k] by {}
            assert forall|k: int| 0 <= k < order.len() implies #[trigger] order[k] < i + 1 by {
                if k < j {
                    assert(order[k] == old_order[k]);
                } else if k > j {
                    assert(order[k] == old_order[k - 1]);
                }
            }
        }
        i = i + 1;
    }
    proof {
        assert(input.take(i as int) =~= input);
        assert(stable_by_id(input, out@, order));
    }
    let mut passed: usize = 0;
    let mut k: usize = 0;
    while k < out.len()
        invariant
            k <= out@.len(),
            passed <= k,
            passed == count_passed(out@.take(k as int)),
            stable_by_id(input, out@, order),
            out@.to_multiset() == input.to_multiset(),
            input == results@,
        decreases out@.len() - k,
    {
        assert(out@.take(k + 1).drop_last() =~= out@.take(k as int));
        if out[k].passed {
            passed = passed + 1;
        }
        k = k + 1;
    }
    assert(out@.take(out@.len() as int) =~= out@);
    let failed = out.len() - passed;
    let suite = SuiteResult { results: out, passed, failed };
    assert(stable_by_id(results@, suite.results@, order));
    suite
}

/// The candles whose draw kept them, in order.
pub open spec fn drawn<C>(candles: Seq<C>, keep: Seq<bool>) -> Seq<C>
    decreases candles.len(),
{
    if candles.len() == 0 {
        Seq::empty()
    } else {
        let rest = drawn(candles.drop_last(), keep);
        if keep[candles.len() - 1] {
            rest.push(candles.last())
        } else {
            rest
        }
    }
}

/// What a dropout run hands the engine: the candles whose draw kept them, or,
/// when fewer than two survive, the first two candles of the series (the whole
/// series when it is shorter).
pub open spec fn dropout_kept<C>(candles: Seq<C>, keep: Seq<bool>) -> Seq<C> {
    let kept = drawn(candles, keep);
    if kept.len() >= 2 {
        kept
    } else if candles.len() >= 2 {
        candles.take(2)
    } else {
        candles
    }
}

/// Applies one dropout draw: `keep[i]` says whether candle `i` survived its
/// draw. At least two candles are always kept, so the engine has a stream to
/// run.
pub fn dropout_survivors<C: Copy>(candles: &Vec<C>, keep: &Vec<bool>) -> (r: Vec<C>)
    requires
        keep@.len() == candles@.len(),
    ensures
        r@ == dropout_kept(candles@, keep@),
{
    let mut kept: Vec<C> = Vec::new();
    let mut i: usize = 0;
    while i < candles.len()
        invariant
            i <= candles@.len(),
            keep@.len() == candles@.len(),
            kept@ == drawn(candles@.take(i as int), keep@),
        decreases candles@.len() - i,
    {
        assert(candles@.take(i + 1).drop_last() =~= candles@.take(i as int));
        if keep[i] {
            kept.push(candles[i]);
        }
        i = i + 1;
    }
    assert(candles@.take(candles@.len() as int) =~= candles@);
    if kept.len() >= 2 {
        kept
    } else {
        let mut first: Vec<C> = Vec::new();
        let mut k: usize = 0;
        while k < candles.len() && k < 2
            invariant
                k <= 2,
                k <= candles@.len(),
                first@ == candles@.take(k as int),
            decreases 2 - k,
        {
            first.push(candles[k]);
            assert(candles@.take(k + 1) =~= candles@.take(k as int).push(candles@[k as int]));
            k = k + 1;
        }
        assert(candles@.len() < 2 ==> candles@.take(k as int) =~= candles@);
        first
    }
}

/// The drawn candles are a subsequence of the series: `pos[m]` is where the
/// `m`-th survivor stands in it, and the positions ascend.
pub proof fn lemma_drawn_subsequence<C>(candles: Seq<C>, keep: Seq<bool>) -> (pos: Seq<int>)
    requires
        candles.len() <= keep.len(),
    ensures
        pos.len() == drawn(candles, keep).len(),
        drawn(candles, keep).len() <= candles.len(),
        forall|m: int| 0 <= m < pos.len() ==> 0 <= #[trigger] pos[m] < candles.len()
            && keep[pos[m]] && drawn(candles, keep)[m] == candles[pos[m]],
        forall|m: int, l: int| 0 <= m < l < pos.len() ==> #[trigger] pos[m] < #[trigger] pos[l],
    decreases candles.len(),
{
    if candles.len() == 0 {
        Seq::empty()
    } else {
        let last = candles.len() - 1;
        let prev = lemma_drawn_subsequence(candles.drop_last(), keep);
        if keep[last] {
            prev.push(last)
        } else {
            prev
        }
    }
}

/// `out` is taken from `candles` at the ascending positions `pos`.
pub open spec fn picked_from<C>(out: Seq<C>, candles: Seq<C>, pos: Seq<int>) -> bool {
    &&& pos.len() == out.len()
    &&& forall|m: int| 0 <= m < pos.len() ==> 0 <= #[trigger] pos[m] < candles.len() && out[m] == candles[pos[m]]
    &&& forall|m: int, l: int| 0 <= m < l < pos.len() ==> #[trigger] pos[m] < #[trigger] pos[l]
}

/// A dropout run keeps at least two candles of any series that has two, keeps
/// every candle of a shorter one, and keeps only candles of the series, in
/// their order, timestamps and all.
pub proof fn lemma_dropout_keeps_two<C>(candles: Seq<C>, keep: Seq<bool>)
    requires
        keep.len() == candles.len(),
    ensures
        candles.len() >= 2 ==> dropout_kept(candles, keep).len() >= 2,
        candles.len() < 2 ==> dropout_kept(candles, keep) == candles,
        exists|pos: Seq<int>| picked_from(dropout_kept(candles, keep), candles, pos),
{
    let pos = lemma_drawn_subsequence(candles, keep);
    let kept = dropout_kept(candles, keep);
    if drawn(candles, keep).len() >= 2 {
        assert(kept == drawn(candles, keep));
        assert(picked_from(kept, candles, pos));
    } else {
        let n: int = if candles.len() >= 2 { 2 } else { candles.len() as int };
        let p2 = Seq::new(n as nat, |m: int| m);
        assert(kept.len() == n);
        assert forall|m: int| 0 <= m < p2.len() implies 0 <= #[trigger] p2[m] < candles.len()
            && kept[m] == candles[p2[m]] by {}
        assert forall|m: int, l: int| 0 <= m < l < p2.len() implies #[trigger] p2[m] < #[trigger] p2[l] by {}
        assert(picked_from(kept, candles, p2));
    }
}

/// `b` is `a` with every numeric leaf passed through `round`: same shape, same
/// strings, booleans and keys, and each number `x` of `a` replaced by a value
/// that `round` can return for `x`.
pub open spec fn rounded_json<R: Fn(u64) -> u64>(a: Json, b: Json, round: R) -> bool
    decreases a, 0nat,
{
    match a {
        Json::Null => b is Null,
        Json::Bool(x) => b == Json::Bool(x),
        Json::Number(x) => (b matches Json::Number(y) && call_ensures(round, (x,), y)),
        Json::Str(s) => (b matches Json::Str(t) && t@ == s@),
        Json::Array(xs) => (b matches Json::Array(ys) && ys@.len() == xs@.len()
            && rounded_items(xs@, ys@, round, xs@.len())),
        Json::Object(xm) => (b matches Json::Object(ym) && ym@.len() == xm@.len()
            && rounded_members(xm@, ym@, round, xm@.len())),
    }
}

/// The first `n` elements of `ys` are those of `xs`, rounded.
pub open spec fn rounded_items<R: Fn(u64) -> u64>(xs: Seq<Json>, ys: Seq<Json>, round: R, n: nat) -> bool
    decreases xs, n,
{
    if n == 0 || n > xs.len() {
        true
    } else {
        rounded_items(xs, ys, round, (n - 1) as nat) && rounded_json(xs[n - 1], ys[n - 1], round)
    }
}

/// The first `n` members of `ym` are those of `xm`, same keys, values rounded.
pub open spec fn rounded_members<R: Fn(u64) -> u64>(
    xm: Seq<(String, Json)>,
    ym: Seq<(String, Json)>,
    round: R,
    n: nat,
) -> bool
    decreases xm, n,
{
    if n == 0 || n > xm.len() {
        true
    } else {
        rounded_members(xm, ym, round, (n - 1) as nat) && ym[n - 1].0@ == xm[n - 1].0@
            && rounded_json(xm[n - 1].1, ym[n - 1].1, round)
    }
}

proof fn lemma_rounded_items_extend<R: Fn(u64) -> u64>(xs: Seq<Json>, ys: Seq<Json>, y: Json, round: R, n: nat)
    requires
        n <= ys.len(),
        rounded_items(xs, ys, round, n),
    ensures
        rounded_items(xs, ys.push(y), round, n),
    decreases n,
{
    if n > 0 && n <= xs.len() {
        lemma_rounded_items_extend(xs, ys, y, round, (n - 1) as nat);
        assert(ys.push(y)[n - 1] == ys[n - 1]);
    }
}

proof fn lemma_rounded_members_extend<R: Fn(u64) -> u64>(
    xm: Seq<(String, Json)>,
    ym: Seq<(String, Json)>,
    y: (String, Json),
    round: R,
    n: nat,
)
    requires
        n <= ym.len(),
        rounded_members(xm, ym, round, n),
    ensures
        rounded_members(xm, ym.push(y), round, n),
    decreases n,
{
    if n > 0 && n <= xm.len() {
        lemma_rounded_members_extend(xm, ym, y, round, (n - 1) as nat);
        assert(ym.push(y)[n - 1] == ym[n - 1]);
    }
}

/// Deep-rounds every numeric leaf of a report with `round` (eight decimals in
/// use), keeping its shape, strings and keys; used when blessing a golden so
/// the stored value matches what the diff compares against.
pub fn round_report<R: Fn(u64) -> u64>(report: &Json, round: &R) -> (r: Json)
    requires
        forall|x: u64| round.requires((x,)),
    ensures
        rounded_json(*report, r, *round),
    decreases report,
{
    match report {
        Json::Null => Json::Null,
        Json::Bool(b) => Json::Bool(*b),
        Json::Number(x) => Json::Number(round(*x)),
        Json::Str(s) => Json::Str(s.clone()),
        Json::Array(items) => {
            let mut out: Vec<Json> = Vec::new();
            let mut i: usize = 0;
            while i < items.len()
                invariant
                    i <= items@.len(),
                    out@.len() == i,
                    *report == Json::Array(*items),
                    forall|x: u64| round.requires((x,)),
                    rounded_items(items@, out@, *round, i as nat),
                decreases items@.len() - i,
            {
                proof {
                    assert(decreases_to!(*report => (*report)->Array_0));
                    assert(decreases_to!(*items => items@));
                    assert(decreases_to!(items@ => items@[i as int]));
                }
                let y = round_report(&items[i], round);
                proof {
                    lemma_rounded_items_extend(items@, out@, y, *round, i as nat);
                }
                out.push(y);
                i = i + 1;
            }
            Json::Array(out)
        },
        Json::Object(members) => {
            let mut out: Vec<(String, Json)> = Vec::new();
            let mut i: usize = 0;
            while i < members.len()
                invariant
                    i <= members@.len(),
                    out@.len() == i,
                    *report == Json::Object(*members),
                    forall|x: u64| round.requires((x,)),
                    rounded_members(members@, out@, *round, i as nat),
                decreases members@.len() - i,
            {
                proof {
                    assert(decreases_to!(*report => (*report)->Object_0));
                    assert(decreases_to!(*members => members@));
                    assert(decreases_to!(members@ => members@[i as int]));
                    assert(decreases_to!(members@[i as int] => members@[i as int].1));
                }
                let y = round_report(&members[i].1, round);
                let entry = (members[i].0.clone(), y);
                proof {
                    lemma_rounded_members_extend(members@, out@, entry, *round, i as nat);
                }
                out.push(entry);
                i = i + 1;
            }
            Json::Object(out)
        },
    }
}

/// `t` is the result of judging `test` on `report` with the fuzz failures
/// `fuzz`: it carries the test's id and no report hash; each property is
/// checked against the report, in order; the diff is the golden diff of the
/// rounded golden against the rounded report (empty without a golden); and
/// the verdict is that all three axes are clean.
pub open spec fn assessed<R: Fn(u64) -> u64, W: Fn(u64, u64, Tolerance) -> bool, J: Fn(Comparison) -> bool>(
    test: StrategyTest,
    report: Json,
    fuzz: Seq<FuzzFailure>,
    t: TestResult,
    round: R,
    within: W,
    judge: J,
) -> bool {
    &&& t.id@ == test.id@
    &&& t.report_hash is None
    &&& t.error is None
    &&& t.fuzz_failures@ == fuzz
    &&& t.passed == verdict(t.diff@, t.property_results@, fuzz)
    &&& t.passed == (t.diff@.len() == 0 && fuzz.len() == 0
        && forall|i: int| 0 <= i < t.property_results@.len() ==> (#[trigger] t.property_results@[i]).passed)
    &&& t.property_results@.len() == test.property_checks@.len()
    &&& forall|i: int| 0 <= i < t.property_results@.len() ==> check_ok(
        test.property_checks@[i],
        flat(report),
        map_entries(flat(report)),
        #[trigger] t.property_results@[i],
        judge,
    )
    &&& test.expected is None ==> t.diff@.len() == 0
    &&& test.expected matches Some(golden) ==> exists|re: Json, ra: Json| {
        &&& #[trigger] rounded_json(golden, re, round)
        &&& #[trigger] rounded_json(report, ra, round)
        &&& golden_diff(t.diff@, flat(re), flat(ra), test.tolerances@, test.tolerances.entries(), within)
    }
}

/// Judges one test on the report its strategy produced: the golden diff of
/// the rounded expected report against the rounded report (empty when the
/// test has no golden), every property checked against the report, and the
/// failures its fuzz runs recorded; the verdict is [`TestResult::is_pass`]'s.
pub fn assess<R: Fn(u64) -> u64, W: Fn(u64, u64, Tolerance) -> bool, J: Fn(Comparison) -> bool>(
    test: &StrategyTest,
    report: &Json,
    fuzz_failures: Vec<FuzzFailure>,
    round: &R,
    within: W,
    judge: &J,
) -> (t: TestResult)
    requires
        forall|x: u64| round.requires((x,)),
        forall|x: u64, y: u64, tol: Tolerance| within.requires((x, y, tol)),
        forall|c: Comparison| judge.requires((c,)),
    ensures
        assessed(*test, *report, fuzz_failures@, t, *round, within, *judge),
{
    let diff = match &test.expected {
        Some(golden) => {
            diff_reports(golden, report, &test.tolerances, round, within)
        },
        None => Vec::new(),
    };
    let property_results = check_all(&test.property_checks, report, judge);
    test_result(&test.id, diff, property_results, fuzz_failures)
}

/// `b` is `test` blessed over `candles`: every field kept but the golden,
/// which is the report the backtest gave for `candles`, rounded.
pub open spec fn blessed_from<D, B: Fn(&String, &D) -> Result<Json, Error>, R: Fn(u64) -> u64>(
    test: StrategyTest,
    candles: D,
    b: StrategyTest,
    backtest: B,
    round: R,
) -> bool {
    &&& b.id == test.id
    &&& b.strategy == test.strategy
    &&& b.dataset_ref == test.dataset_ref
    &&& b.tolerances == test.tolerances
    &&& b.property_checks == test.property_checks
    &&& b.fuzz == test.fuzz
    &&& exists|report: Json| {
        &&& call_ensures(backtest, (&test.strategy, &candles), Ok::<Json, Error>(report))
        &&& b.expected matches Some(golden) && rounded_json(report, golden, round)
    }
}

/// Re-pins a test: runs its strategy over its dataset with `backtest` and
/// sets its `expected` golden to the report, rounded with `round`; everything
/// else about the test stays. A dataset that is missing is [`Error::Data`]; an
/// error of the run is handed back.
pub fn bless<D, B: Fn(&String, &D) -> Result<Json, Error>, R: Fn(u64) -> u64>(
    test: StrategyTest,
    data: &KeyMap<D>,
    backtest: &B,
    round: &R,
) -> (r: Result<StrategyTest, Error>)
    requires
        forall|s: &String, d: &D| backtest.requires((s, d)),
        forall|x: u64| round.requires((x,)),
    ensures
        !data@.contains_key(test.dataset_ref@) ==> (r matches Err(Error::Data(m))
            && m@ == missing_dataset_text(test.dataset_ref@)),
        r matches Ok(b) ==> data@.contains_key(test.dataset_ref@)
            && blessed_from(test, data@[test.dataset_ref@], b, *backtest, *round),
        r matches Err(e) ==> (data@.contains_key(test.dataset_ref@) ==> call_ensures(
            *backtest,
            (&test.strategy, &data@[test.dataset_ref@]),
            Err::<Json, Error>(e),
        )),
{
    let candles = match find_dataset(data, test.dataset_ref.as_str()) {
        Ok(c) => c,
        Err(e) => {
            return Err(e);
        },
    };
    let report = match backtest(&test.strategy, candles) {
        Ok(j) => j,
        Err(e) => {
            return Err(e);
        },
    };
    let mut b = test;
    b.expected = Some(round_report(&report, round));
    Ok(b)
}

/// `sym-01`
pub open spec fn sample_symbol() -> Seq<char> {
    seq!['s', 'y', 'm', '-', '0', '1']
}

/// A data map holding one series, under the symbol `sym-01`.
pub fn data<V>(series: V) -> (m: KeyMap<V>)
    ensures
        m@ == Map::<Seq<char>, V>::empty().insert(sample_symbol(), series),
{
    let mut m: KeyMap<V> = KeyMap::new();
    let key = "sym-01".to_owned();
    proof {
        reveal_strlit("sym-01");
        assert(key@ =~= sample_symbol());
    }
    m.insert(key, series);
    m
}

/// `round` gives one value for each input.
pub open spec fn deterministic<R: Fn(u64) -> u64>(round: R) -> bool {
    forall|x: u64, y: u64, z: u64| #[trigger] call_ensures(round, (x,), y) && #[trigger] call_ensures(round, (x,), z) ==> y == z
}

/// Rounding a rounded value gives it back.
pub open spec fn idempotent<R: Fn(u64) -> u64>(round: R) -> bool {
    forall|x: u64, y: u64| #[trigger] call_ensures(round, (x,), y) ==> call_ensures(round, (y,), y)
}

/// Two roundings of one value flatten alike, under any prefix and into any map.
proof fn lemma_rounded_same_flat<R: Fn(u64) -> u64>(a: Json, b: Json, c: Json, round: R, p: Seq<char>, m: Map<Seq<char>, u64>)
    requires
        rounded_json(a, b, round),
        rounded_json(a, c, round),
        deterministic(round),
    ensures
        flatten_spec(b, p, m) == flatten_spec(c, p, m),
    decreases a, 0nat,
{
    match a {
        Json::Number(x) => {
            let y = b->Number_0;
            let z = c->Number_0;
            assert(call_ensures(round, (x,), y) && call_ensures(round, (x,), z));
        },
        Json::Array(xs) => {
            let ys = b->Array_0;
            let zs = c->Array_0;
            assert(decreases_to!(a => xs));
            assert(decreases_to!(xs => xs@));
            lemma_rounded_items_same_flat(xs@, ys@, zs@, round, p, m, xs@.len());
        },
        Json::Object(xm) => {
            let ym = b->Object_0;
            let zm = c->Object_0;
            assert(decreases_to!(a => xm));
            assert(decreases_to!(xm => xm@));
            lemma_rounded_members_same_flat(xm@, ym@, zm@, round, p, m, xm@.len());
        },
        _ => {},
    }
}

proof fn lemma_rounded_items_same_flat<R: Fn(u64) -> u64>(
    xs: Seq<Json>,
    ys: Seq<Json>,
    zs: Seq<Json>,
    round: R,
    p: Seq<char>,
    m: Map<Seq<char>, u64>,
    n: nat,
)
    requires
        ys.len() == xs.len(),
        zs.len() == xs.len(),
        rounded_items(xs, ys, round, n),
        rounded_items(xs, zs, round, n),
        deterministic(round),
    ensures
        flatten_items(ys, p, m, n) == flatten_items(zs, p, m, n),
    decreases xs, n,
{
    if n > 0 && n <= xs.len() {
        lemma_rounded_items_same_flat(xs, ys, zs, round, p, m, (n - 1) as nat);
        let acc = flatten_items(ys, p, m, (n - 1) as nat);
        assert(decreases_to!(xs => xs[n - 1]));
        lemma_rounded_same_flat(xs[n - 1], ys[n - 1], zs[n - 1], round, index_key(p, (n - 1) as nat), acc);
    }
}

proof fn lemma_rounded_members_same_flat<R: Fn(u64) -> u64>(
    xm: Seq<(String, Json)>,
    ym: Seq<(String, Json)>,
    zm: Seq<(String, Json)>,
    round: R,
    p: Seq<char>,
    m: Map<Seq<char>, u64>,
    n: nat,
)
    requires
        ym.len() == xm.len(),
        zm.len() == xm.len(),
        rounded_members(xm, ym, round, n),
        rounded_members(xm, zm, round, n),
        deterministic(round),
    ensures
        flatten_members(ym, p, m, n) == flatten_members(zm, p, m, n),
    decreases xm, n,
{
    if n > 0 && n <= xm.len() {
        lemma_rounded_members_same_flat(xm, ym, zm, round, p, m, (n - 1) as nat);
        let acc = flatten_members(ym, p, m, (n - 1) as nat);
        assert(decreases_to!(xm => xm[n - 1]));
        assert(decreases_to!(xm[n - 1] => xm[n - 1].1));
        lemma_rounded_same_flat(xm[n - 1].1, ym[n - 1].1, zm[n - 1].1, round, member_key(p, xm[n - 1].0@), acc);
    }
}

/// A rounded value is its own rounding when rounding is idempotent.
proof fn lemma_rounded_fixed<R: Fn(u64) -> u64>(a: Json, b: Json, round: R)
    requires
        rounded_json(a, b, round),
        idempotent(round),
    ensures
        rounded_json(b, b, round),
    decreases a, 0nat,
{
    match a {
        Json::Number(x) => {
            let y = b->Number_0;
            assert(call_ensures(round, (x,), y));
        },
        Json::Array(xs) => {
            let ys = b->Array_0;
            assert(decreases_to!(a => xs));
            assert(decreases_to!(xs => xs@));
            lemma_rounded_items_fixed(xs@, ys@, round, xs@.len());
        },
        Json::Object(xm) => {
            let ym = b->Object_0;
            assert(decreases_to!(a => xm));
            assert(decreases_to!(xm => xm@));
            lemma_rounded_members_fixed(xm@, ym@, round, xm@.len());
        },
        _ => {},
    }
}

proof fn lemma_rounded_items_fixed<R: Fn(u64) -> u64>(xs: Seq<Json>, ys: Seq<Json>, round: R, n: nat)
    requires
        ys.len() == xs.len(),
        rounded_items(xs, ys, round, n),
        idempotent(round),
    ensures
        rounded_items(ys, ys, round, n),
    decreases xs, n,
{
    if n > 0 && n <= xs.len() {
        lemma_rounded_items_fixed(xs, ys, round, (n - 1) as nat);
        assert(decreases_to!(xs => xs[n - 1]));
        lemma_rounded_fixed(xs[n - 1], ys[n - 1], round);
    }
}

proof fn lemma_rounded_members_fixed<R: Fn(u64) -> u64>(
    xm: Seq<(String, Json)>,
    ym: Seq<(String, Json)>,
    round: R,
    n: nat,
)
    requires
        ym.len() == xm.len(),
        rounded_members(xm, ym, round, n),
        idempotent(round),
    ensures
        rounded_members(ym, ym, round, n),
    decreases xm, n,
{
    if n > 0 && n <= xm.len() {
        lemma_rounded_members_fixed(xm, ym, round, (n - 1) as nat);
        assert(decreases_to!(xm => xm[n - 1]));
        assert(decreases_to!(xm[n - 1] => xm[n - 1].1));
        lemma_rounded_fixed(xm[n - 1].1, ym[n - 1].1, round);
    }
}

/// The tolerance check accepts any finite value against itself under every
/// tolerance the test resolves (so no tolerance is negative).
pub open spec fn accepts_equal<W: Fn(u64, u64, Tolerance) -> bool>(
    within: W,
    tm: Map<Seq<char>, Tolerance>,
    te: Seq<(Seq<char>, Tolerance)>,
) -> bool {
    forall|x: u64, k: Seq<char>| is_finite_bits(x) ==> !#[trigger] call_ensures(within, (x, x, resolve_spec(k, tm, te)), false)
}

/// A test blessed on a report matches that report exactly: when rounding
/// gives one value per input and leaves rounded values alone, and the test's
/// tolerances accept equal values, the golden that [`bless`] pins and the
/// report round to the same leaves, so the diff that [`assess`] computes for
/// the blessed test on that report is empty.
pub proof fn lemma_blessed_test_matches_its_report<R: Fn(u64) -> u64, W: Fn(u64, u64, Tolerance) -> bool>(
    report: Json,
    golden: Json,
    diff: Seq<FieldDiff>,
    round: R,
    tm: Map<Seq<char>, Tolerance>,
    te: Seq<(Seq<char>, Tolerance)>,
    within: W,
)
    requires
        deterministic(round),
        idempotent(round),
        accepts_equal(within, tm, te),
        rounded_json(report, golden, round),
        exists|re: Json, ra: Json| {
            &&& #[trigger] rounded_json(golden, re, round)
            &&& #[trigger] rounded_json(report, ra, round)
            &&& golden_diff(diff, flat(re), flat(ra), tm, te, within)
        },
    ensures
        diff.len() == 0,
{
    let (re, ra) = choose|re: Json, ra: Json| {
        &&& #[trigger] rounded_json(golden, re, round)
        &&& #[trigger] rounded_json(report, ra, round)
        &&& golden_diff(diff, flat(re), flat(ra), tm, te, within)
    };
    lemma_rounded_fixed(report, golden, round);
    lemma_rounded_same_flat(golden, re, golden, round, Seq::empty(), Map::empty());
    lemma_rounded_same_flat(report, ra, golden, round, Seq::empty(), Map::empty());
    assert(flat(re) == flat(ra));
    lemma_self_diff_empty(diff, flat(re), tm, te, within);
}

/// No two results share an id.
pub open spec fn distinct_ids(results: Seq<TestResult>) -> bool {
    forall|k: int, l: int| 0 <= k < l < results.len() ==> #[trigger] results[k].id@ != #[trigger] results[l].id@
}

/// Two sequences of results with strictly ascending ids and the same results
/// are the same sequence.
proof fn lemma_ascending_ids_unique(x: Seq<TestResult>, y: Seq<TestResult>)
    requires
        forall|k: int, l: int| 0 <= k < l < x.len() ==> chars_lt(#[trigger] x[k].id@, #[trigger] x[l].id@),
        forall|k: int, l: int| 0 <= k < l < y.len() ==> chars_lt(#[trigger] y[k].id@, #[trigger] y[l].id@),
        x.to_multiset() == y.to_multiset(),
    ensures
        x == y,
    decreases x.len(),
{
    broadcast use vstd::seq_lib::group_to_multiset_ensures;
    broadcast use vstd::multiset::group_multiset_axioms;
    lemma_lt_order();
    if x.len() == 0 || y.len() == 0 {
        assert(x.len() == y.len());
        assert(x =~= y);
    } else {
        assert(x.to_multiset().contains(x[0]));
        assert(y.to_multiset().contains(x[0]));
        assert(x.to_multiset().contains(y[0]));
        let i = choose|i: int| 0 <= i < x.len() && #[trigger] x[i] == y[0];
        let j = choose|j: int| 0 <= j < y.len() && #[trigger] y[j] == x[0];
        if i > 0 {
            assert(chars_lt(x[0].id@, x[i].id@));
            if j > 0 {
                assert(chars_lt(y[0].id@, y[j].id@));
            }
        }
        assert(x[0] == y[0]);
        assert(x.drop_first() =~= x.remove(0));
        assert(y.drop_first() =~= y.remove(0));
        assert(x.drop_first().to_multiset() =~= x.to_multiset().remove(x[0]));
        assert(y.drop_first().to_multiset() =~= y.to_multiset().remove(y[0]));
        assert forall|k: int, l: int| 0 <= k < l < x.drop_first().len() implies
            chars_lt(#[trigger] x.drop_first()[k].id@, #[trigger] x.drop_first()[l].id@) by {
            assert(chars_lt(x[k + 1].id@, x[l + 1].id@));
        }
        assert forall|k: int, l: int| 0 <= k < l < y.drop_first().len() implies
            chars_lt(#[trigger] y.drop_first()[k].id@, #[trigger] y.drop_first()[l].id@) by {
            assert(chars_lt(y[k + 1].id@, y[l + 1].id@));
        }
        lemma_ascending_ids_unique(x.drop_first(), y.drop_first());
        assert(x =~= seq![x[0]] + x.drop_first());
        assert(y =~= seq![y[0]] + y.drop_first());
    }
}

/// A stable order of results with distinct ids ascends strictly.
proof fn lemma_stable_strict(input: Seq<TestResult>, out: Seq<TestResult>, order: Seq<int>)
    requires
        distinct_ids(input),
        stable_by_id(input, out, order),
    ensures
        forall|k: int, l: int| 0 <= k < l < out.len() ==> chars_lt(#[trigger] out[k].id@, #[trigger] out[l].id@),
{
    assert forall|k: int, l: int| 0 <= k < l < out.len() implies chars_lt(#[trigger] out[k].id@, #[trigger] out[l].id@) by {
        assert(chars_le(out[k].id@, out[l].id@));
        assert(order[k] != order[l]);
        if order[k] < order[l] {
            assert(input[order[k]].id@ != input[order[l]].id@);
        } else {
            assert(input[order[l]].id@ != input[order[k]].id@);
        }
    }
}

/// The results of a suite with distinct ids come out in one order, whatever
/// order they were collected in: two collections of the same results give the
/// same suite.
pub proof fn lemma_suite_order_fixed_by_ids(
    a: Seq<TestResult>,
    b: Seq<TestResult>,
    out_a: Seq<TestResult>,
    out_b: Seq<TestResult>,
)
    requires
        a.to_multiset() == b.to_multiset(),
        distinct_ids(a),
        distinct_ids(b),
        exists|order: Seq<int>| stable_by_id(a, out_a, order),
        exists|order: Seq<int>| stable_by_id(b, out_b, order),
        out_a.to_multiset() == a.to_multiset(),
        out_b.to_multiset() == b.to_multiset(),
    ensures
        out_a == out_b,
{
    let oa = choose|order: Seq<int>| stable_by_id(a, out_a, order);
    let ob = choose|order: Seq<int>| stable_by_id(b, out_b, order);
    lemma_stable_strict(a, out_a, oa);
    lemma_stable_strict(b, out_b, ob);
    lemma_ascending_ids_unique(out_a, out_b);
}

/// The property results `prs[k]` are those of checking `props` against the
/// report of fuzz run `k`.
pub open spec fn fuzz_checks_ok<J: Fn(Comparison) -> bool>(
    props: Seq<Property>,
    reports: Seq<Json>,
    prs: Seq<Seq<PropertyResult>>,
    judge: J,
) -> bool {
    &&& prs.len() == reports.len()
    &&& forall|k: int| 0 <= k < prs.len() ==> (#[trigger] prs[k]).len() == props.len()
    &&& forall|k: int, i: int| 0 <= k < prs.len() && 0 <= i < props.len() ==> check_ok(
        props[i],
        flat(reports[k]),
        map_entries(flat(reports[k])),
        #[trigger] prs[k][i],
        judge,
    )
}

/// The failures of the first `n` fuzz runs, run by run.
pub open spec fn all_fuzz_failures(prs: Seq<Seq<PropertyResult>>, n: nat) -> Seq<FuzzFailure>
    decreases n,
{
    if n == 0 || n > prs.len() {
        Seq::empty()
    } else {
        all_fuzz_failures(prs, (n - 1) as nat) + fuzz_failures_of((n - 1) as u32, prs[n - 1])
    }
}

/// The fuzz axis of `test` over `candles` recorded the failures `fs`: with no
/// fuzz axis there are none; otherwise each run `k` drew its perturbed series
/// from `candles` (`perturb` of the fuzz spec, `k` and `candles`), ran the
/// strategy over it, and checked the properties on its report, and `fs` holds
/// every property that failed, run by run.
pub open spec fn fuzzed<D, B: Fn(&String, &D) -> Result<Json, Error>, Z: Fn(FuzzSpec, u32, &D) -> D, J: Fn(Comparison) -> bool>(
    test: StrategyTest,
    candles: D,
    fs: Seq<FuzzFailure>,
    backtest: B,
    perturb: Z,
    judge: J,
) -> bool {
    match test.fuzz {
        None => fs.len() == 0,
        Some(f) => exists|draws: Seq<D>, reports: Seq<Json>, prs: Seq<Seq<PropertyResult>>| {
            &&& draws.len() == f.runs
            &&& reports.len() == f.runs
            &&& forall|k: int| 0 <= k < f.runs ==> call_ensures(perturb, (f, k as u32, &candles), #[trigger] draws[k])
                && call_ensures(backtest, (&test.strategy, &draws[k]), Ok::<Json, Error>(reports[k]))
            &&& fuzz_checks_ok(test.property_checks@, reports, prs, judge)
            &&& fs == all_fuzz_failures(prs, f.runs as nat)
        },
    }
}

/// `fuzz axis missing`
pub open spec fn fuzz_axis_missing_text() -> Seq<char> {
    seq!['f', 'u', 'z', 'z', ' ', 'a', 'x', 'i', 's', ' ', 'm', 'i', 's', 's', 'i', 'n', 'g']
}

/// Fuzz run `k` ended the axis with `e`: the runs before it drew their series
/// and ran them, and run `k` drew its series and the run of it gave `e`.
pub open spec fn fuzz_error_at<D, B: Fn(&String, &D) -> Result<Json, Error>, Z: Fn(FuzzSpec, u32, &D) -> D>(
    test: StrategyTest,
    candles: D,
    e: Error,
    backtest: B,
    perturb: Z,
    k: int,
    draws: Seq<D>,
    reports: Seq<Json>,
) -> bool {
    &&& test.fuzz matches Some(f) && 0 <= k < f.runs
    &&& draws.len() == k + 1
    &&& reports.len() == k
    &&& forall|j: int| 0 <= j <= k ==> call_ensures(perturb, (test.fuzz->Some_0, j as u32, &candles), #[trigger] draws[j])
    &&& forall|j: int| 0 <= j < k ==> call_ensures(backtest, (&test.strategy, &draws[j]), Ok::<Json, Error>(#[trigger] reports[j]))
    &&& call_ensures(backtest, (&test.strategy, &draws[k]), Err::<Json, Error>(e))
}

/// Some fuzz run of `test` over `candles` ended the axis with `e`.
pub open spec fn fuzz_error<D, B: Fn(&String, &D) -> Result<Json, Error>, Z: Fn(FuzzSpec, u32, &D) -> D>(
    test: StrategyTest,
    candles: D,
    e: Error,
    backtest: B,
    perturb: Z,
) -> bool {
    exists|k: int, draws: Seq<D>, reports: Seq<Json>| #[trigger] fuzz_error_at(test, candles, e, backtest, perturb, k, draws, reports)
}

/// Runs the fuzz axis: for each run `k` of the `runs`, draws the perturbed
/// series `perturb(spec, k, candles)` (the series the spec's seeded generator
/// gives on its `k`-th draw), runs the strategy over it, and records the
/// properties that fail on its report; the first run that cannot be run ends
/// the axis with its error.
fn run_fuzz<D, B: Fn(&String, &D) -> Result<Json, Error>, Z: Fn(FuzzSpec, u32, &D) -> D, J: Fn(Comparison) -> bool>(
    test: &StrategyTest,
    candles: &D,
    backtest: &B,
    perturb: &Z,
    judge: &J,
) -> (r: Result<Vec<FuzzFailure>, Error>)
    requires
        forall|s: &String, d: &D| backtest.requires((s, d)),
        forall|f: FuzzSpec, k: u32, d: &D| perturb.requires((f, k, d)),
        forall|c: Comparison| judge.requires((c,)),
    ensures
        test.fuzz is None ==> (r matches Err(Error::BadSpec(m)) && m@ == fuzz_axis_missing_text()),
        r matches Ok(fs) ==> fuzzed(*test, *candles, fs@, *backtest, *perturb, *judge),
        r matches Err(e) ==> (test.fuzz is None || fuzz_error(*test, *candles, e, *backtest, *perturb)),
{
    let fz = match test.fuzz {
        Some(f) => f,
        None => {
            let m = "fuzz axis missing".to_owned();
            proof {
                reveal_strlit("fuzz axis missing");
                assert(m@ =~= fuzz_axis_missing_text());
            }
            return Err(Error::BadSpec(m));
        },
    };
    let runs = fz.runs;
    let ghost props = test.property_checks@;
    let ghost mut draws: Seq<D> = Seq::empty();
    let ghost mut reports: Seq<Json> = Seq::empty();
    let ghost mut prs: Seq<Seq<PropertyResult>> = Seq::empty();
    let mut failures: Vec<FuzzFailure> = Vec::new();
    let mut run: u32 = 0;
    while run < runs
        invariant
            run <= runs,
            test.fuzz == Some(fz),
            fz.runs == runs,
            props == test.property_checks@,
            draws.len() == run,
            reports.len() == run,
            forall|k: int| 0 <= k < run ==> call_ensures(*perturb, (fz, k as u32, candles), #[trigger] draws[k])
                && call_ensures(*backtest, (&test.strategy, &draws[k]), Ok::<Json, Error>(reports[k])),
            fuzz_checks_ok(props, reports, prs, *judge),
            failures@ == all_fuzz_failures(prs, run as nat),
            forall|s: &String, d: &D| backtest.requires((s, d)),
            forall|f: FuzzSpec, k: u32, d: &D| perturb.requires((f, k, d)),
            forall|c: Comparison| judge.requires((c,)),
        decreases runs - run,
    {
        let drawn = perturb(fz, run, candles);
        let report = match backtest(&test.strategy, &drawn) {
            Ok(j) => j,
            Err(e) => {
                proof {
                    let ds = draws.push(drawn);
                    assert(forall|j: int| 0 <= j < run ==> ds[j] == draws[j]);
                    assert(fuzz_error_at(*test, *candles, e, *backtest, *perturb, run as int, ds, reports));
                }
                return Err(e);
            },
        };
        let results = check_all(&test.property_checks, &report, judge);
        let ghost pr = results@;
        let mut found = fuzz_failures(run, results);
        let ghost before = failures@;
        failures.append(&mut found);
        proof {
            draws = draws.push(drawn);
            reports = reports.push(report);
            let old_prs = prs;
            prs = prs.push(pr);
            assert forall|k: int, i: int| 0 <= k < prs.len() && 0 <= i < props.len() implies check_ok(
                props[i],
                flat(reports[k]),
                map_entries(flat(reports[k])),
                #[trigger] prs[k][i],
                *judge,
            ) by {
                if k < run {
                    assert(prs[k] == old_prs[k]);
                }
            }
            assert(forall|k: int| 0 <= k < run ==> prs[k] == old_prs[k]);
            assert(all_fuzz_failures(prs, run as nat) == all_fuzz_failures(old_prs, run as nat)) by {
                lemma_all_fuzz_failures_prefix(old_prs, prs, run as nat);
            }
            assert(failures@ =~= all_fuzz_failures(prs, (run + 1) as nat));
        }
        run = run + 1;
    }
    Ok(failures)
}

/// The failures of the first `n` runs depend on those runs alone.
proof fn lemma_all_fuzz_failures_prefix(a: Seq<Seq<PropertyResult>>, b: Seq<Seq<PropertyResult>>, n: nat)
    requires
        n <= a.len(),
        n <= b.len(),
        forall|k: int| 0 <= k < n ==> a[k] == b[k],
    ensures
        all_fuzz_failures(a, n) == all_fuzz_failures(b, n),
    decreases n,
{
    if n > 0 {
        lemma_all_fuzz_failures_prefix(a, b, (n - 1) as nat);
    }
}

/// `t` is what `test` comes to over `candles`: the report the backtest gave
/// for `candles`, judged, with the failures of its fuzz runs.
pub open spec fn ran_on<
    D,
    B: Fn(&String, &D) -> Result<Json, Error>,
    Z: Fn(FuzzSpec, u32, &D) -> D,
    R: Fn(u64) -> u64,
    W: Fn(u64, u64, Tolerance) -> bool,
    J: Fn(Comparison) -> bool,
>(
    test: StrategyTest,
    candles: D,
    t: TestResult,
    backtest: B,
    perturb: Z,
    round: R,
    within: W,
    judge: J,
) -> bool {
    exists|report: Json| {
        &&& call_ensures(backtest, (&test.strategy, &candles), Ok::<Json, Error>(report))
        &&& assessed(test, report, t.fuzz_failures@, t, round, within, judge)
        &&& fuzzed(test, candles, t.fuzz_failures@, backtest, perturb, judge)
    }
}

/// The backtest gives at most one report for `strategy` over `candles`.
pub open spec fn one_report<D, B: Fn(&String, &D) -> Result<Json, Error>>(backtest: B, strategy: String, candles: D) -> bool {
    forall|x: Json, y: Json|
        #[trigger] call_ensures(backtest, (&strategy, &candles), Ok::<Json, Error>(x))
            && #[trigger] call_ensures(backtest, (&strategy, &candles), Ok::<Json, Error>(y)) ==> x == y
}

/// What running `test` over `data` may give: the missing-dataset error exactly
/// when its dataset is missing; a result only as [`ran_on`] its dataset; and
/// otherwise an error the backtest gave, on the dataset itself or on one fuzz
/// run's draw of it after the dataset's own run succeeded.
pub open spec fn tested<
    D,
    B: Fn(&String, &D) -> Result<Json, Error>,
    Z: Fn(FuzzSpec, u32, &D) -> D,
    R: Fn(u64) -> u64,
    W: Fn(u64, u64, Tolerance) -> bool,
    J: Fn(Comparison) -> bool,
>(
    test: StrategyTest,
    data: Map<Seq<char>, D>,
    r: Result<TestResult, Error>,
    backtest: B,
    perturb: Z,
    round: R,
    within: W,
    judge: J,
) -> bool {
    &&& !data.contains_key(test.dataset_ref@) ==> (r matches Err(Error::Data(m))
        && m@ == missing_dataset_text(test.dataset_ref@))
    &&& r matches Ok(t) ==> data.contains_key(test.dataset_ref@)
        && ran_on(test, data[test.dataset_ref@], t, backtest, perturb, round, within, judge)
    &&& r matches Err(e) ==> (data.contains_key(test.dataset_ref@) ==> {
        ||| call_ensures(backtest, (&test.strategy, &data[test.dataset_ref@]), Err::<Json, Error>(e))
        ||| exists|report: Json| {
            &&& call_ensures(backtest, (&test.strategy, &data[test.dataset_ref@]), Ok::<Json, Error>(report))
            &&& fuzz_error(test, data[test.dataset_ref@], e, backtest, perturb)
        }
    })
}

/// Runs one strategy test to a full result: looks up its dataset, runs the
/// strategy over it with `backtest` (given the strategy and the series), runs
/// the fuzz axis (drawing run `k`'s perturbed series with `perturb`, given the
/// fuzz spec, `k` and the series), and judges the test on the report. A
/// dataset that is missing is [`Error::Data`]; an error of a run ends the
/// test with that error.
pub fn run_test<
    D,
    B: Fn(&String, &D) -> Result<Json, Error>,
    Z: Fn(FuzzSpec, u32, &D) -> D,
    R: Fn(u64) -> u64,
    W: Fn(u64, u64, Tolerance) -> bool,
    J: Fn(Comparison) -> bool,
>(
    test: &StrategyTest,
    data: &KeyMap<D>,
    backtest: &B,
    perturb: &Z,
    round: &R,
    within: W,
    judge: &J,
) -> (r: Result<TestResult, Error>)
    requires
        forall|s: &String, d: &D| backtest.requires((s, d)),
        forall|f: FuzzSpec, k: u32, d: &D| perturb.requires((f, k, d)),
        forall|x: u64| round.requires((x,)),
        forall|x: u64, y: u64, tol: Tolerance| within.requires((x, y, tol)),
        forall|c: Comparison| judge.requires((c,)),
    ensures
        tested(*test, data@, r, *backtest, *perturb, *round, within, *judge),
{
    let candles = match find_dataset(data, test.dataset_ref.as_str()) {
        Ok(c) => c,
        Err(e) => {
            return Err(e);
        },
    };
    let report = match backtest(&test.strategy, candles) {
        Ok(j) => j,
        Err(e) => {
            return Err(e);
        },
    };
    let ghost rg = report;
    let fuzz = match test.fuzz {
        Some(_) => match run_fuzz(test, candles, backtest, perturb, judge) {
            Ok(fs) => fs,
            Err(e) => {
                assert(call_ensures(*backtest, (&test.strategy, &data@[test.dataset_ref@]), Ok::<Json, Error>(rg)));
                return Err(e);
            },
        },
        None => Vec::new(),
    };
    let ghost fs = fuzz@;
    let t = assess(test, &report, fuzz, round, within, judge);
    assert(fuzzed(*test, *candles, fs, *backtest, *perturb, *judge));
    Ok(t)
}

/// A freshly blessed test matches itself when run again: where the backtest
/// gives one report for the test's dataset, rounding gives one value per input
/// and leaves rounded values alone, and the test's tolerances accept equal
/// values, the rerun of the blessed test has an empty diff, so it passes
/// exactly when its properties pass and its fuzz runs are clean.
pub proof fn lemma_blessed_test_passes_its_diff<
    D,
    B: Fn(&String, &D) -> Result<Json, Error>,
    Z: Fn(FuzzSpec, u32, &D) -> D,
    R: Fn(u64) -> u64,
    W: Fn(u64, u64, Tolerance) -> bool,
    J: Fn(Comparison) -> bool,
>(
    test: StrategyTest,
    candles: D,
    blessed: StrategyTest,
    t: TestResult,
    backtest: B,
    perturb: Z,
    round: R,
    within: W,
    judge: J,
)
    requires
        blessed_from(test, candles, blessed, backtest, round),
        ran_on(blessed, candles, t, backtest, perturb, round, within, judge),
        one_report(backtest, test.strategy, candles),
        deterministic(round),
        idempotent(round),
        accepts_equal(within, blessed.tolerances@, blessed.tolerances.entries()),
    ensures
        t.diff@.len() == 0,
        t.passed == (t.fuzz_failures@.len() == 0
            && forall|i: int| 0 <= i < t.property_results@.len() ==> (#[trigger] t.property_results@[i]).passed),
{
    let r1 = choose|report: Json| {
        &&& call_ensures(backtest, (&test.strategy, &candles), Ok::<Json, Error>(report))
        &&& blessed.expected matches Some(golden) && rounded_json(report, golden, round)
    };
    let r2 = choose|report: Json| {
        &&& call_ensures(backtest, (&blessed.strategy, &candles), Ok::<Json, Error>(report))
        &&& assessed(blessed, report, t.fuzz_failures@, t, round, within, judge)
        &&& fuzzed(blessed, candles, t.fuzz_failures@, backtest, perturb, judge)
    };
    assert(r1 == r2);
    let golden = blessed.expected->Some_0;
    lemma_blessed_test_matches_its_report(
        r2,
        golden,
        t.diff@,
        round,
        blessed.tolerances@,
        blessed.tolerances.entries(),
        within,
    );
}

/// Blessing a blessed test again changes nothing: where the backtest gives
/// one report for the dataset and rounding gives one value per input, every
/// field stays as it was, and the new golden is a rounding of the same report
/// with the same numeric leaves as the old one.
pub proof fn lemma_reblessing_changes_nothing<D, B: Fn(&String, &D) -> Result<Json, Error>, R: Fn(u64) -> u64>(
    test: StrategyTest,
    candles: D,
    b1: StrategyTest,
    b2: StrategyTest,
    backtest: B,
    round: R,
)
    requires
        blessed_from(test, candles, b1, backtest, round),
        blessed_from(b1, candles, b2, backtest, round),
        one_report(backtest, test.strategy, candles),
        deterministic(round),
    ensures
        b2.id == b1.id,
        b2.strategy == b1.strategy,
        b2.dataset_ref == b1.dataset_ref,
        b2.tolerances == b1.tolerances,
        b2.property_checks == b1.property_checks,
        b2.fuzz == b1.fuzz,
        b1.expected is Some && b2.expected is Some,
        flat(b2.expected->Some_0) == flat(b1.expected->Some_0),
        exists|report: Json| {
            &&& call_ensures(backtest, (&test.strategy, &candles), Ok::<Json, Error>(report))
            &&& rounded_json(report, b1.expected->Some_0, round)
            &&& rounded_json(report, b2.expected->Some_0, round)
        },
{
    let r1 = choose|report: Json| {
        &&& call_ensures(backtest, (&test.strategy, &candles), Ok::<Json, Error>(report))
        &&& b1.expected matches Some(golden) && rounded_json(report, golden, round)
    };
    let r2 = choose|report: Json| {
        &&& call_ensures(backtest, (&b1.strategy, &candles), Ok::<Json, Error>(report))
        &&& b2.expected matches Some(golden) && rounded_json(report, golden, round)
    };
    assert(r1 == r2);
    let g1 = b1.expected->Some_0;
    let g2 = b2.expected->Some_0;
    lemma_rounded_same_flat(r1, g2, g1, round, Seq::empty(), Map::empty());
    assert(rounded_json(r1, g1, round) && rounded_json(r1, g2, round));
}

/// Swapping the expected and the actual report mirrors what [`diff_reports`]
/// gives: where rounding gives one value per input and the tolerance check
/// gives a pair the same verdict both ways round, the two diffs list the same
/// fields in the same order, expected and actual swapped, missing and extra
/// fields trading places.
pub proof fn lemma_swapped_reports_mirror<R: Fn(u64) -> u64, W: Fn(u64, u64, Tolerance) -> bool>(
    forward: Seq<FieldDiff>,
    backward: Seq<FieldDiff>,
    expected: Json,
    actual: Json,
    tm: Map<Seq<char>, Tolerance>,
    te: Seq<(Seq<char>, Tolerance)>,
    round: R,
    within: W,
)
    requires
        diffed(forward, expected, actual, tm, te, round, within),
        diffed(backward, actual, expected, tm, te, round, within),
        deterministic(round),
        symmetric_verdicts(within),
    ensures
        backward.len() == forward.len(),
        forall|i: int| 0 <= i < forward.len() ==> mirrored(#[trigger] forward[i], backward[i]),
{
    let (re, ra) = choose|re: Json, ra: Json| {
        &&& #[trigger] rounded_json(expected, re, round)
        &&& #[trigger] rounded_json(actual, ra, round)
        &&& golden_diff(forward, flat(re), flat(ra), tm, te, within)
    };
    let (rb, rc) = choose|rb: Json, rc: Json| {
        &&& #[trigger] rounded_json(actual, rb, round)
        &&& #[trigger] rounded_json(expected, rc, round)
        &&& golden_diff(backward, flat(rb), flat(rc), tm, te, within)
    };
    lemma_rounded_same_flat(expected, re, rc, round, Seq::empty(), Map::empty());
    lemma_rounded_same_flat(actual, ra, rb, round, Seq::empty(), Map::empty());
    lemma_swapped_diff_mirrors(forward, backward, flat(re), flat(ra), tm, te, within);
}

/// `t` is what `test` came to in a suite over `data`: the result running it
/// gave, or, when running it gave an error, the failing result that carries
/// that error under the test's id.
pub open spec fn suite_entry<
    D,
    B: Fn(&String, &D) -> Result<Json, Error>,
    Z: Fn(FuzzSpec, u32, &D) -> D,
    R: Fn(u64) -> u64,
    W: Fn(u64, u64, Tolerance) -> bool,
    J: Fn(Comparison) -> bool,
>(
    test: StrategyTest,
    data: Map<Seq<char>, D>,
    t: TestResult,
    backtest: B,
    perturb: Z,
    round: R,
    within: W,
    judge: J,
) -> bool {
    exists|r: Result<TestResult, Error>| {
        &&& #[trigger] tested(test, data, r, backtest, perturb, round, within, judge)
        &&& match r {
            Ok(x) => t == x,
            Err(e) => unrunnable(test.id@, e, t),
        }
    }
}

/// `s` is the suite of `tests` over `data`: one entry per test, each what
/// running that test alone came to, collected as [`suite_of`] says.
pub open spec fn suite_over<
    D,
    B: Fn(&String, &D) -> Result<Json, Error>,
    Z: Fn(FuzzSpec, u32, &D) -> D,
    R: Fn(u64) -> u64,
    W: Fn(u64, u64, Tolerance) -> bool,
    J: Fn(Comparison) -> bool,
>(
    tests: Seq<StrategyTest>,
    data: Map<Seq<char>, D>,
    s: SuiteResult,
    backtest: B,
    perturb: Z,
    round: R,
    within: W,
    judge: J,
) -> bool {
    exists|results: Seq<TestResult>| {
        &&& results.len() == tests.len()
        &&& forall|k: int| 0 <= k < results.len() ==> suite_entry(
            tests[k],
            data,
            #[trigger] results[k],
            backtest,
            perturb,
            round,
            within,
            judge,
        )
        &&& #[trigger] suite_of(results, s)
    }
}

/// Runs every test over `data` with [`run_test`], in order, and collects the
/// suite: each result is what running its test alone gives, sorted stably by
/// id, with the pass and fail counts. A test that cannot be run (a missing
/// dataset, an engine rejection) becomes a failing result carrying the
/// error's text, and the suite still reports on every other test.
pub fn run_suite<
    D,
    B: Fn(&String, &D) -> Result<Json, Error>,
    Z: Fn(FuzzSpec, u32, &D) -> D,
    R: Fn(u64) -> u64,
    W: Fn(u64, u64, Tolerance) -> bool + Copy,
    J: Fn(Comparison) -> bool,
>(
    tests: &Vec<StrategyTest>,
    data: &KeyMap<D>,
    backtest: &B,
    perturb: &Z,
    round: &R,
    within: W,
    judge: &J,
) -> (r: Result<SuiteResult, Error>)
    requires
        forall|s: &String, d: &D| backtest.requires((s, d)),
        forall|f: FuzzSpec, k: u32, d: &D| perturb.requires((f, k, d)),
        forall|x: u64| round.requires((x,)),
        forall|x: u64, y: u64, tol: Tolerance| within.requires((x, y, tol)),
        forall|c: Comparison| judge.requires((c,)),
    ensures
        r matches Ok(s) && suite_over(tests@, data@, s, *backtest, *perturb, *round, within, *judge),
{
    let mut results: Vec<TestResult> = Vec::new();
    let mut i: usize = 0;
    while i < tests.len()
        invariant
            i <= tests@.len(),
            results@.len() == i,
            forall|s: &String, d: &D| backtest.requires((s, d)),
            forall|f: FuzzSpec, k: u32, d: &D| perturb.requires((f, k, d)),
            forall|x: u64| round.requires((x,)),
            forall|x: u64, y: u64, tol: Tolerance| within.requires((x, y, tol)),
            forall|c: Comparison| judge.requires((c,)),
            forall|k: int| 0 <= k < i ==> suite_entry(
                tests@[k],
                data@,
                #[trigger] results@[k],
                *backtest,
                *perturb,
                *round,
                within,
                *judge,
            ),
        decreases tests@.len() - i,
    {
        let ghost before = results@;
        let outcome = run_test(&tests[i], data, backtest, perturb, round, within, judge);
        let ghost og = outcome;
        assert(tested(tests@[i as int], data@, og, *backtest, *perturb, *round, within, *judge));
        let t = match outcome {
            Ok(t) => t,
            Err(e) => unrunnable_result(tests[i].id.clone(), e),
        };
        assert(suite_entry(tests@[i as int], data@, t, *backtest, *perturb, *round, within, *judge));
        results.push(t);
        assert forall|k: int| 0 <= k < i + 1 implies suite_entry(
            tests@[k],
            data@,
            #[trigger] results@[k],
            *backtest,
            *perturb,
            *round,
            within,
            *judge,
        ) by {
            if k < i {
                assert(results@[k] == before[k]);
            }
        }
        i = i + 1;
    }
    let ghost all = results@;
    assert(forall|k: int| 0 <= k < all.len() ==> suite_entry(
        tests@[k],
        data@,
        #[trigger] all[k],
        *backtest,
        *perturb,
        *round,
        within,
        *judge,
    ));
    let s = assemble_suite(results);
    assert(suite_of(all, s));
    assert(suite_over(tests@, data@, s, *backtest, *perturb, *round, within, *judge));
    Ok(s)
}

/// A report always diffs empty against itself under [`diff_reports`]: where
/// rounding gives one value per input and the tolerances accept equal finite
/// values (none is negative), both sides round to the same leaves, and no
/// field is listed.
pub proof fn lemma_report_diffs_empty_against_itself<R: Fn(u64) -> u64, W: Fn(u64, u64, Tolerance) -> bool>(
    r: Seq<FieldDiff>,
    report: Json,
    tm: Map<Seq<char>, Tolerance>,
    te: Seq<(Seq<char>, Tolerance)>,
    round: R,
    within: W,
)
    requires
        diffed(r, report, report, tm, te, round, within),
        deterministic(round),
        accepts_equal(within, tm, te),
    ensures
        r.len() == 0,
{
    let (re, ra) = choose|re: Json, ra: Json| {
        &&& #[trigger] rounded_json(report, re, round)
        &&& #[trigger] rounded_json(report, ra, round)
        &&& golden_diff(r, flat(re), flat(ra), tm, te, within)
    };
    lemma_rounded_same_flat(report, re, ra, round, Seq::empty(), Map::empty());
    lemma_self_diff_empty(r, flat(re), tm, te, within);
}

} // verus!
