//! The text form of a suite result: one block per test, its failures spelled
//! out, then the totals. How a number and a property are written is the
//! caller's (their `Debug` forms in use).

use vstd::prelude::*;
use crate::model::{DiffKind, FieldDiff, FuzzFailure, Property, PropertyResult, SuiteResult, TestResult};
use crate::text::{concat, decimal, decimal_string};

verus! {

/// `show` gives one text for each input.
pub open spec fn deterministic_show<A, F: Fn(A) -> String>(show: F) -> bool {
    forall|x: A, s: String, t: String| #[trigger] call_ensures(show, (x,), s) && #[trigger] call_ensures(show, (x,), t) ==> s@ == t@
}

/// The text `show` gives for `x`.
pub open spec fn shown<A, F: Fn(A) -> String>(show: F, x: A) -> Seq<char> {
    (choose|s: String| call_ensures(show, (x,), s))@
}

/// A call of a deterministic `show` returns the text it gives.
proof fn lemma_shown<A, F: Fn(A) -> String>(show: F, x: A, s: String)
    requires
        deterministic_show(show),
        call_ensures(show, (x,), s),
    ensures
        s@ == shown(show, x),
{
    let t = choose|t: String| call_ensures(show, (x,), t);
    assert(call_ensures(show, (x,), t));
}

/// The name of a diff kind.
pub open spec fn kind_name(k: DiffKind) -> Seq<char> {
    match k {
        DiffKind::Mismatch => seq!['M', 'i', 's', 'm', 'a', 't', 'c', 'h'],
        DiffKind::Missing => seq!['M', 'i', 's', 's', 'i', 'n', 'g'],
        DiffKind::Extra => seq!['E', 'x', 't', 'r', 'a'],
    }
}

/// A detail, or nothing.
pub open spec fn detail_text(d: Option<String>) -> Seq<char> {
    match d {
        Some(s) => s@,
        None => Seq::empty(),
    }
}

/// `  diff <kind> <field>: expected <value> actual <value>` and a newline.
pub open spec fn diff_line<V: Fn(Option<u64>) -> String>(d: FieldDiff, show_value: V) -> Seq<char> {
    seq![' ', ' ', 'd', 'i', 'f', 'f', ' '] + kind_name(d.kind) + seq![' '] + d.field@
        + seq![':', ' ', 'e', 'x', 'p', 'e', 'c', 't', 'e', 'd', ' '] + shown(show_value, d.expected)
        + seq![' ', 'a', 'c', 't', 'u', 'a', 'l', ' '] + shown(show_value, d.actual) + seq!['\n']
}

/// The lines of the first `n` diff entries.
pub open spec fn diff_lines<V: Fn(Option<u64>) -> String>(ds: Seq<FieldDiff>, n: nat, show_value: V) -> Seq<char>
    decreases n,
{
    if n == 0 || n > ds.len() {
        Seq::empty()
    } else {
        diff_lines(ds, (n - 1) as nat, show_value) + diff_line(ds[n - 1], show_value)
    }
}

/// `  property <property> failed <detail>` and a newline, for a failed
/// property; nothing for one that passed.
pub open spec fn property_line<P: Fn(Property) -> String>(r: PropertyResult, show_property: P) -> Seq<char> {
    if r.passed {
        Seq::empty()
    } else {
        seq![' ', ' ', 'p', 'r', 'o', 'p', 'e', 'r', 't', 'y', ' '] + shown(show_property, r.property)
            + seq![' ', 'f', 'a', 'i', 'l', 'e', 'd', ' '] + detail_text(r.detail) + seq!['\n']
    }
}

/// The lines of the first `n` property results.
pub open spec fn property_lines<P: Fn(Property) -> String>(rs: Seq<PropertyResult>, n: nat, show_property: P) -> Seq<char>
    decreases n,
{
    if n == 0 || n > rs.len() {
        Seq::empty()
    } else {
        property_lines(rs, (n - 1) as nat, show_property) + property_line(rs[n - 1], show_property)
    }
}

/// `  fuzz run <run> <property> failed <detail>` and a newline.
pub open spec fn fuzz_line<P: Fn(Property) -> String>(f: FuzzFailure, show_property: P) -> Seq<char> {
    seq![' ', ' ', 'f', 'u', 'z', 'z', ' ', 'r', 'u', 'n', ' '] + decimal(f.run as nat) + seq![' ']
        + shown(show_property, f.property) + seq![' ', 'f', 'a', 'i', 'l', 'e', 'd', ' '] + detail_text(f.detail)
        + seq!['\n']
}

/// The lines of the first `n` fuzz failures.
pub open spec fn fuzz_lines<P: Fn(Property) -> String>(fs: Seq<FuzzFailure>, n: nat, show_property: P) -> Seq<char>
    decreases n,
{
    if n == 0 || n > fs.len() {
        Seq::empty()
    } else {
        fuzz_lines(fs, (n - 1) as nat, show_property) + fuzz_line(fs[n - 1], show_property)
    }
}

/// `  error <reason>` and a newline for a test that could not be run; nothing
/// for one that ran.
pub open spec fn error_line(e: Option<String>) -> Seq<char> {
    match e {
        Some(m) => seq![' ', ' ', 'e', 'r', 'r', 'o', 'r', ' '] + m@ + seq!['\n'],
        None => Seq::empty(),
    }
}

/// The block of one test: `PASS <id>` or `FAIL <id>`, and for a failed test
/// why it could not be run (if it could not), its diff entries, its failed
/// properties and its fuzz failures.
pub open spec fn test_block<V: Fn(Option<u64>) -> String, P: Fn(Property) -> String>(
    r: TestResult,
    show_value: V,
    show_property: P,
) -> Seq<char> {
    let head = if r.passed {
        seq!['P', 'A', 'S', 'S', ' ']
    } else {
        seq!['F', 'A', 'I', 'L', ' ']
    };
    if r.passed {
        head + r.id@ + seq!['\n']
    } else {
        head + r.id@ + seq!['\n'] + error_line(r.error) + diff_lines(r.diff@, r.diff@.len(), show_value)
            + property_lines(r.property_results@, r.property_results@.len(), show_property)
            + fuzz_lines(r.fuzz_failures@, r.fuzz_failures@.len(), show_property)
    }
}

/// The position of the first failed test.
pub open spec fn first_failure(results: Seq<TestResult>) -> Option<nat>
    decreases results.len(),
{
    if results.len() == 0 {
        None
    } else {
        match first_failure(results.drop_last()) {
            Some(i) => Some(i),
            None => if results.last().passed {
                None
            } else {
                Some((results.len() - 1) as nat)
            },
        }
    }
}

/// How many test blocks are shown: all of them, or with `fail_fast` those up
/// to and including the first failed test.
pub open spec fn blocks_shown(results: Seq<TestResult>, fail_fast: bool) -> nat {
    match first_failure(results) {
        Some(i) => if fail_fast {
            i + 1
        } else {
            results.len()
        },
        None => results.len(),
    }
}

/// A failure found in a prefix is the first failure of the whole.
proof fn lemma_first_failure_prefix(results: Seq<TestResult>, n: nat)
    requires
        n <= results.len(),
        first_failure(results.take(n as int)) is Some,
    ensures
        first_failure(results) == first_failure(results.take(n as int)),
    decreases results.len() - n,
{
    if n == results.len() {
        assert(results.take(n as int) =~= results);
    } else {
        let shorter = results.drop_last();
        assert(shorter.take(n as int) =~= results.take(n as int));
        lemma_first_failure_prefix(shorter, n);
    }
}

/// The blocks of the first `n` tests.
pub open spec fn test_blocks<V: Fn(Option<u64>) -> String, P: Fn(Property) -> String>(
    results: Seq<TestResult>,
    n: nat,
    show_value: V,
    show_property: P,
) -> Seq<char>
    decreases n,
{
    if n == 0 || n > results.len() {
        Seq::empty()
    } else {
        test_blocks(results, (n - 1) as nat, show_value, show_property) + test_block(results[n - 1], show_value, show_property)
    }
}

/// `<passed> passed, <failed> failed`, after a blank line.
pub open spec fn totals_line(passed: nat, failed: nat) -> Seq<char> {
    seq!['\n'] + decimal(passed) + seq![' ', 'p', 'a', 's', 's', 'e', 'd', ',', ' '] + decimal(failed)
        + seq![' ', 'f', 'a', 'i', 'l', 'e', 'd', '\n']
}

fn kind_text(k: DiffKind) -> (s: &'static str)
    ensures
        s@ == kind_name(k),
{
    match k {
        DiffKind::Mismatch => {
            proof { reveal_strlit("Mismatch"); }
            "Mismatch"
        },
        DiffKind::Missing => {
            proof { reveal_strlit("Missing"); }
            "Missing"
        },
        DiffKind::Extra => {
            proof { reveal_strlit("Extra"); }
            "Extra"
        },
    }
}

fn detail_of(d: &Option<String>) -> (s: &str)
    ensures
        s@ == detail_text(*d),
{
    match d {
        Some(s) => s.as_str(),
        None => {
            proof { reveal_strlit(""); }
            ""
        },
    }
}

/// Appends the block of one test to `out`.
#[verifier::spinoff_prover]
#[verifier::rlimit(30)]
pub fn render_one<V: Fn(Option<u64>) -> String, P: Fn(Property) -> String>(
    out: &mut String,
    result: &TestResult,
    show_value: &V,
    show_property: &P,
)
    requires
        forall|x: Option<u64>| show_value.requires((x,)),
        forall|p: Property| show_property.requires((p,)),
        deterministic_show(*show_value),
        deterministic_show(*show_property),
    ensures
        final(out)@ == old(out)@ + test_block(*result, *show_value, *show_property),
        result.passed ==> final(out)@ == old(out)@ + (seq!['P', 'A', 'S', 'S', ' '] + result.id@ + seq!['\n']),
        !result.passed ==> final(out)@ == old(out)@ + (seq!['F', 'A', 'I', 'L', ' '] + result.id@ + seq!['\n']
            + error_line(result.error)
            + Seq::new(result.diff@.len(), |i: int| diff_line(result.diff@[i], *show_value)).flatten()
            + Seq::new(result.property_results@.len(), |i: int| property_line(result.property_results@[i], *show_property)).flatten()
            + Seq::new(result.fuzz_failures@.len(), |i: int| fuzz_line(result.fuzz_failures@[i], *show_property)).flatten()),
{
    let ghost start = out@;
    let head = if result.passed { "PASS " } else { "FAIL " };
    proof {
        reveal_strlit("PASS ");
        reveal_strlit("FAIL ");
        reveal_strlit("\n");
    }
    let line = concat(head, result.id.as_str());
    let line = concat(line.as_str(), "\n");
    *out = concat(out.as_str(), line.as_str());
    if result.passed {
        assert(out@ =~= start + test_block(*result, *show_value, *show_property));
        return;
    }
    match &result.error {
        Some(m) => {
            proof { reveal_strlit("  error "); }
            let s = concat("  error ", m.as_str());
            let s = concat(s.as_str(), "\n");
            *out = concat(out.as_str(), s.as_str());
        },
        None => {},
    }
    assert(out@ =~= start + seq!['F', 'A', 'I', 'L', ' '] + result.id@ + seq!['\n'] + error_line(result.error));
    let ghost after_head = out@;
    let mut i: usize = 0;
    while i < result.diff.len()
        invariant
            i <= result.diff@.len(),
            forall|x: Option<u64>| show_value.requires((x,)),
            deterministic_show(*show_value),
            out@ == after_head + diff_lines(result.diff@, i as nat, *show_value),
        decreases result.diff@.len() - i,
    {
        let d = &result.diff[i];
        let e = show_value(d.expected);
        let a = show_value(d.actual);
        proof {
            lemma_shown(*show_value, d.expected, e);
            lemma_shown(*show_value, d.actual, a);
            reveal_strlit("  diff ");
            reveal_strlit(" ");
            reveal_strlit(": expected ");
            reveal_strlit(" actual ");
            reveal_strlit("\n");
        }
        let s = concat("  diff ", kind_text(d.kind));
        let s = concat(s.as_str(), " ");
        let s = concat(s.as_str(), d.field.as_str());
        let s = concat(s.as_str(), ": expected ");
        let s = concat(s.as_str(), e.as_str());
        let s = concat(s.as_str(), " actual ");
        let s = concat(s.as_str(), a.as_str());
        let s = concat(s.as_str(), "\n");
        assert(s@ =~= diff_line(*d, *show_value));
        *out = concat(out.as_str(), s.as_str());
        assert(out@ =~= after_head + diff_lines(result.diff@, (i + 1) as nat, *show_value));
        i = i + 1;
    }
    let ghost after_diff = out@;
    let mut j: usize = 0;
    while j < result.property_results.len()
        invariant
            j <= result.property_results@.len(),
            forall|p: Property| show_property.requires((p,)),
            deterministic_show(*show_property),
            out@ == after_diff + property_lines(result.property_results@, j as nat, *show_property),
        decreases result.property_results@.len() - j,
    {
        let r = &result.property_results[j];
        if !r.passed {
            let p = show_property(r.property.duplicate());
            proof {
                lemma_shown(*show_property, r.property, p);
                reveal_strlit("  property ");
                reveal_strlit(" failed ");
                reveal_strlit("\n");
            }
            let s = concat("  property ", p.as_str());
            let s = concat(s.as_str(), " failed ");
            let s = concat(s.as_str(), detail_of(&r.detail));
            let s = concat(s.as_str(), "\n");
            assert(s@ =~= property_line(*r, *show_property));
            *out = concat(out.as_str(), s.as_str());
        }
        assert(out@ =~= after_diff + property_lines(result.property_results@, (j + 1) as nat, *show_property));
        j = j + 1;
    }
    let ghost after_props = out@;
    let mut k: usize = 0;
    while k < result.fuzz_failures.len()
        invariant
            k <= result.fuzz_failures@.len(),
            forall|p: Property| show_property.requires((p,)),
            deterministic_show(*show_property),
            out@ == after_props + fuzz_lines(result.fuzz_failures@, k as nat, *show_property),
        decreases result.fuzz_failures@.len() - k,
    {
        let f = &result.fuzz_failures[k];
        let p = show_property(f.property.duplicate());
        proof {
            lemma_shown(*show_property, f.property, p);
            reveal_strlit("  fuzz run ");
            reveal_strlit(" ");
            reveal_strlit(" failed ");
            reveal_strlit("\n");
        }
        let s = concat("  fuzz run ", decimal_string(f.run as usize).as_str());
        let s = concat(s.as_str(), " ");
        let s = concat(s.as_str(), p.as_str());
        let s = concat(s.as_str(), " failed ");
        let s = concat(s.as_str(), detail_of(&f.detail));
        let s = concat(s.as_str(), "\n");
        assert(s@ =~= fuzz_line(*f, *show_property));
        *out = concat(out.as_str(), s.as_str());
        assert(out@ =~= after_props + fuzz_lines(result.fuzz_failures@, (k + 1) as nat, *show_property));
        k = k + 1;
    }
    assert(out@ =~= start + test_block(*result, *show_value, *show_property));
    proof {
        lemma_block_lists_every_entry(*result, *show_value, *show_property);
    }
}

/// The suite as text: the block of each test in order, stopping after the
/// first failed test when `fail_fast`, then a blank line and the totals.
pub fn render_text<V: Fn(Option<u64>) -> String, P: Fn(Property) -> String>(
    suite: &SuiteResult,
    fail_fast: bool,
    show_value: &V,
    show_property: &P,
) -> (s: String)
    requires
        forall|x: Option<u64>| show_value.requires((x,)),
        forall|p: Property| show_property.requires((p,)),
        deterministic_show(*show_value),
        deterministic_show(*show_property),
    ensures
        s@ == test_blocks(suite.results@, blocks_shown(suite.results@, fail_fast), *show_value, *show_property)
            + totals_line(suite.passed as nat, suite.failed as nat),
        blocks_shown(suite.results@, fail_fast) <= suite.results@.len(),
        !fail_fast ==> blocks_shown(suite.results@, fail_fast) == suite.results@.len(),
        fail_fast ==> forall|k: int| 0 <= k < blocks_shown(suite.results@, fail_fast) - 1
            ==> (#[trigger] suite.results@[k]).passed,
        fail_fast && blocks_shown(suite.results@, fail_fast) < suite.results@.len()
            ==> blocks_shown(suite.results@, fail_fast) > 0
            && !suite.results@[blocks_shown(suite.results@, fail_fast) - 1].passed,
        s@ == Seq::new(
            blocks_shown(suite.results@, fail_fast),
            |i: int| test_block(suite.results@[i], *show_value, *show_property),
        ).flatten() + totals_line(suite.passed as nat, suite.failed as nat),
{
    let mut out = String::new();
    let mut i: usize = 0;
    assert(suite.results@.take(suite.results@.len() as int) =~= suite.results@);
    while i < suite.results.len()
        invariant_except_break
            fail_fast ==> first_failure(suite.results@.take(i as int)) is None,
        invariant
            i <= suite.results@.len(),
            suite.results@.take(suite.results@.len() as int) == suite.results@,
            forall|x: Option<u64>| show_value.requires((x,)),
            forall|p: Property| show_property.requires((p,)),
            deterministic_show(*show_value),
            deterministic_show(*show_property),
            out@ == test_blocks(suite.results@, i as nat, *show_value, *show_property),
        ensures
            i <= suite.results@.len(),
            blocks_shown(suite.results@, fail_fast) == i,
            out@ == test_blocks(suite.results@, i as nat, *show_value, *show_property),
        decreases suite.results@.len() - i,
    {
        let result = &suite.results[i];
        render_one(&mut out, result, show_value, show_property);
        proof {
            let t = suite.results@.take(i + 1);
            assert(t.drop_last() =~= suite.results@.take(i as int));
            assert(t.last() == *result);
        }
        if fail_fast && !result.passed {
            proof {
                let t = suite.results@.take(i + 1);
                assert(first_failure(t) == Some(i as nat));
                lemma_first_failure_prefix(suite.results@, (i + 1) as nat);
            }
            i = i + 1;
            break;
        }
        i = i + 1;
    }
    proof {
        lemma_blocks_each(suite.results@, i as nat, *show_value, *show_property);
        lemma_blocks_shown_stop_at_first_failure(suite.results@, fail_fast);
    }
    let totals = concat("\n", decimal_string(suite.passed).as_str());
    let totals = concat(totals.as_str(), " passed, ");
    let totals = concat(totals.as_str(), decimal_string(suite.failed).as_str());
    let totals = concat(totals.as_str(), " failed\n");
    proof {
        reveal_strlit("\n");
        reveal_strlit(" passed, ");
        reveal_strlit(" failed\n");
        assert(totals@ =~= totals_line(suite.passed as nat, suite.failed as nat));
    }
    concat(out.as_str(), totals.as_str())
}

/// The diff lines of the first `n` entries are one line per entry, in order.
proof fn lemma_diff_lines_each<V: Fn(Option<u64>) -> String>(ds: Seq<FieldDiff>, n: nat, show_value: V)
    requires
        n <= ds.len(),
    ensures
        diff_lines(ds, n, show_value) == Seq::new(n, |i: int| diff_line(ds[i], show_value)).flatten(),
    decreases n,
{
    if n > 0 {
        lemma_diff_lines_each(ds, (n - 1) as nat, show_value);
        let all = Seq::new(n, |i: int| diff_line(ds[i], show_value));
        let front = Seq::new((n - 1) as nat, |i: int| diff_line(ds[i], show_value));
        assert(all =~= front.push(diff_line(ds[n - 1], show_value)));
        front.lemma_flatten_push(diff_line(ds[n - 1], show_value));
    }
}

/// The property lines of the first `n` results are one (possibly empty) line
/// per result, in order.
proof fn lemma_property_lines_each<P: Fn(Property) -> String>(rs: Seq<PropertyResult>, n: nat, show_property: P)
    requires
        n <= rs.len(),
    ensures
        property_lines(rs, n, show_property) == Seq::new(n, |i: int| property_line(rs[i], show_property)).flatten(),
    decreases n,
{
    if n > 0 {
        lemma_property_lines_each(rs, (n - 1) as nat, show_property);
        let all = Seq::new(n, |i: int| property_line(rs[i], show_property));
        let front = Seq::new((n - 1) as nat, |i: int| property_line(rs[i], show_property));
        assert(all =~= front.push(property_line(rs[n - 1], show_property)));
        front.lemma_flatten_push(property_line(rs[n - 1], show_property));
    }
}

/// The fuzz lines of the first `n` failures are one line per failure, in
/// order.
proof fn lemma_fuzz_lines_each<P: Fn(Property) -> String>(fs: Seq<FuzzFailure>, n: nat, show_property: P)
    requires
        n <= fs.len(),
    ensures
        fuzz_lines(fs, n, show_property) == Seq::new(n, |i: int| fuzz_line(fs[i], show_property)).flatten(),
    decreases n,
{
    if n > 0 {
        lemma_fuzz_lines_each(fs, (n - 1) as nat, show_property);
        let all = Seq::new(n, |i: int| fuzz_line(fs[i], show_property));
        let front = Seq::new((n - 1) as nat, |i: int| fuzz_line(fs[i], show_property));
        assert(all =~= front.push(fuzz_line(fs[n - 1], show_property)));
        front.lemma_flatten_push(fuzz_line(fs[n - 1], show_property));
    }
}

/// The block of a test lists everything wrong with a failed test: after
/// `FAIL <id>` and the reason it could not run (if any) comes one diff line
/// for every diff entry, then the line of every failed property, then one
/// line for every fuzz failure, each in order; a passed test is `PASS <id>`
/// alone.
pub proof fn lemma_block_lists_every_entry<V: Fn(Option<u64>) -> String, P: Fn(Property) -> String>(
    r: TestResult,
    show_value: V,
    show_property: P,
)
    ensures
        r.passed ==> test_block(r, show_value, show_property) == seq!['P', 'A', 'S', 'S', ' '] + r.id@ + seq!['\n'],
        !r.passed ==> test_block(r, show_value, show_property) == seq!['F', 'A', 'I', 'L', ' '] + r.id@ + seq!['\n']
            + error_line(r.error)
            + Seq::new(r.diff@.len(), |i: int| diff_line(r.diff@[i], show_value)).flatten()
            + Seq::new(r.property_results@.len(), |i: int| property_line(r.property_results@[i], show_property)).flatten()
            + Seq::new(r.fuzz_failures@.len(), |i: int| fuzz_line(r.fuzz_failures@[i], show_property)).flatten(),
{
    lemma_diff_lines_each(r.diff@, r.diff@.len(), show_value);
    lemma_property_lines_each(r.property_results@, r.property_results@.len(), show_property);
    lemma_fuzz_lines_each(r.fuzz_failures@, r.fuzz_failures@.len(), show_property);
}

/// The blocks of the first `n` tests are the block of each of them, in order.
pub proof fn lemma_blocks_each<V: Fn(Option<u64>) -> String, P: Fn(Property) -> String>(
    results: Seq<TestResult>,
    n: nat,
    show_value: V,
    show_property: P,
)
    requires
        n <= results.len(),
    ensures
        test_blocks(results, n, show_value, show_property)
            == Seq::new(n, |i: int| test_block(results[i], show_value, show_property)).flatten(),
    decreases n,
{
    if n > 0 {
        lemma_blocks_each(results, (n - 1) as nat, show_value, show_property);
        let all = Seq::new(n, |i: int| test_block(results[i], show_value, show_property));
        let front = Seq::new((n - 1) as nat, |i: int| test_block(results[i], show_value, show_property));
        assert(all =~= front.push(test_block(results[n - 1], show_value, show_property)));
        front.lemma_flatten_push(test_block(results[n - 1], show_value, show_property));
    }
}

/// The first failure is the first failed test: every test before it passed;
/// with no first failure, every test passed.
proof fn lemma_first_failure_is_first(results: Seq<TestResult>)
    ensures
        first_failure(results) matches Some(i) ==> i < results.len() && !results[i as int].passed
            && forall|k: int| 0 <= k < i ==> (#[trigger] results[k]).passed,
        first_failure(results) is None ==> forall|k: int| 0 <= k < results.len() ==> (#[trigger] results[k]).passed,
    decreases results.len(),
{
    if results.len() > 0 {
        let front = results.drop_last();
        lemma_first_failure_is_first(front);
        match first_failure(front) {
            Some(i) => {
                assert(first_failure(results) == Some(i));
                assert forall|k: int| 0 <= k < i implies (#[trigger] results[k]).passed by {
                    assert(front[k] == results[k]);
                }
                assert(results[i as int] == front[i as int]);
            },
            None => {
                assert forall|k: int| 0 <= k < results.len() - 1 implies (#[trigger] results[k]).passed by {
                    assert(front[k] == results[k]);
                }
                if results.last().passed {
                    assert(first_failure(results) is None);
                    assert forall|k: int| 0 <= k < results.len() implies (#[trigger] results[k]).passed by {
                        if k < results.len() - 1 {
                            assert(front[k] == results[k]);
                        }
                    }
                } else {
                    assert(first_failure(results) == Some((results.len() - 1) as nat));
                }
            },
        }
    }
}

/// Which blocks the text shows: every test's without `fail_fast`; with it,
/// the tests up to and including the first failed one (every test when none
/// failed), so every shown test but the last passed, and the last shown is a
/// failure unless every test is shown.
pub proof fn lemma_blocks_shown_stop_at_first_failure(results: Seq<TestResult>, fail_fast: bool)
    ensures
        blocks_shown(results, fail_fast) <= results.len(),
        !fail_fast ==> blocks_shown(results, fail_fast) == results.len(),
        fail_fast ==> forall|k: int| 0 <= k < blocks_shown(results, fail_fast) - 1 ==> (#[trigger] results[k]).passed,
        fail_fast && blocks_shown(results, fail_fast) < results.len() ==> blocks_shown(results, fail_fast) > 0
            && !results[blocks_shown(results, fail_fast) - 1].passed,
        fail_fast && blocks_shown(results, fail_fast) == results.len() && results.len() > 0
            ==> forall|k: int| 0 <= k < results.len() - 1 ==> (#[trigger] results[k]).passed,
{
    lemma_first_failure_is_first(results);
}

} // verus!
