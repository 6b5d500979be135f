//! The golden diff: compare an expected report to an actual one, field by
//! field, under per-field tolerances.

use vstd::prelude::*;
use crate::json::{flat, flatten_report, Json};
use crate::keymap::{has_key, sorted_keys, KeyMap};
use crate::model::{DiffKind, FieldDiff, Tolerance};
use crate::property::{is_finite, is_finite_bits};
use crate::runner::{round_report, rounded_json};
use crate::text::{chars_less, chars_lt, chars_of, lemma_lt_order, lemma_lt_total};

verus! {

/// `pat` holds the wildcard marker `[*]` at position `i`.
pub open spec fn star_at(pat: Seq<char>, i: int) -> bool {
    0 <= i && i + 3 <= pat.len() && pat[i] == '[' && pat[i + 1] == '*' && pat[i + 2] == ']'
}

/// The position of the first `[*]` in `pat` at or after `from`.
pub open spec fn find_star_from(pat: Seq<char>, from: int) -> Option<int>
    decreases pat.len() - from,
{
    if from < 0 || from + 3 > pat.len() {
        None
    } else if star_at(pat, from) {
        Some(from)
    } else {
        find_star_from(pat, from + 1)
    }
}

/// The base of a `base[*]` pattern: what precedes its first `[*]`.
pub open spec fn pattern_base(pat: Seq<char>) -> Option<Seq<char>> {
    match find_star_from(pat, 0) {
        Some(i) => Some(pat.take(i)),
        None => None,
    }
}

/// `key` falls under the pattern base `base`: it is `base` or starts `base[`.
pub open spec fn under_base(key: Seq<char>, base: Seq<char>) -> bool {
    key == base || (key.len() > base.len() && key.take(base.len() as int) == base
        && key[base.len() as int] == '[')
}

/// The longest-base pattern among the first `n` tolerance entries that `key`
/// falls under, with its base length; the first in key order wins a tie.
pub open spec fn best_pattern(entries: Seq<(Seq<char>, Tolerance)>, key: Seq<char>, n: nat) -> Option<(nat, Tolerance)>
    decreases n,
{
    if n == 0 || n > entries.len() {
        None
    } else {
        let prev = best_pattern(entries, key, (n - 1) as nat);
        match pattern_base(entries[n - 1].0) {
            Some(base) => if under_base(key, base) && (match prev {
                Some(p) => base.len() > p.0,
                None => true,
            }) {
                Some((base.len(), entries[n - 1].1))
            } else {
                prev
            },
            None => prev,
        }
    }
}

/// The tolerance that applies to `key`: its own entry, else the longest
/// matching `base[*]` pattern, else the `"*"` default, else exact equality
/// (`Abs` of zero).
pub open spec fn resolve_spec(key: Seq<char>, tolerances: Map<Seq<char>, Tolerance>, entries: Seq<(Seq<char>, Tolerance)>) -> Tolerance {
    if tolerances.contains_key(key) {
        tolerances[key]
    } else {
        match best_pattern(entries, key, entries.len()) {
            Some(best) => best.1,
            None => if tolerances.contains_key(seq!['*']) {
                tolerances[seq!['*']]
            } else {
                Tolerance::Abs { value: 0 }
            },
        }
    }
}

fn find_star(pat: &Vec<char>) -> (r: Option<usize>)
    ensures
        r matches Some(i) ==> find_star_from(pat@, 0) == Some(i as int) && i + 3 <= pat.len(),
        r is None ==> find_star_from(pat@, 0) is None,
{
    let mut i: usize = 0;
    while i < pat.len() && pat.len() - i >= 3
        invariant
            find_star_from(pat@, 0) == find_star_from(pat@, i as int),
            i <= pat.len(),
        decreases pat.len() - i,
    {
        if pat[i] == '[' && pat[i + 1] == '*' && pat[i + 2] == ']' {
            return Some(i);
        }
        i = i + 1;
    }
    None
}

fn key_under_base(key: &Vec<char>, pat: &Vec<char>, blen: usize) -> (r: bool)
    requires
        blen <= pat.len(),
    ensures
        r == under_base(key@, pat@.take(blen as int)),
{
    let ghost base = pat@.take(blen as int);
    if key.len() < blen {
        assert(key@.len() != base.len());
        return false;
    }
    let mut i: usize = 0;
    while i < blen
        invariant
            i <= blen,
            blen <= key.len(),
            blen <= pat.len(),
            base == pat@.take(blen as int),
            forall|j: int| 0 <= j < i ==> key@[j] == pat@[j],
        decreases blen - i,
    {
        if key[i] != pat[i] {
            assert(key@.take(blen as int)[i as int] != base[i as int]);
            assert(key@ != base);
            return false;
        }
        i = i + 1;
    }
    assert(key@.take(blen as int) =~= base);
    if key.len() == blen {
        assert(key@ =~= base);
        true
    } else {
        key[blen] == '['
    }
}

/// Resolves the tolerance for a flattened key. Exact keys win; then the longest
/// `base[*]` pattern that `key` falls under (`base` itself or `base[...]`);
/// then a `"*"` default; then `Abs` of zero, which demands an exact match.
pub fn resolve(key: &str, tolerances: &KeyMap<Tolerance>) -> (t: Tolerance)
    ensures
        t == resolve_spec(key@, tolerances@, tolerances.entries()),
{
    if let Some(t) = tolerances.get(key) {
        return *t;
    }
    let kc = chars_of(key);
    let n = tolerances.len();
    let mut best: Option<(usize, Tolerance)> = None;
    let mut i: usize = 0;
    while i < n
        invariant
            i <= n,
            n == tolerances.entries().len(),
            kc@ == key@,
            (match best {
                Some(b) => Some((b.0 as nat, b.1)),
                None => None::<(nat, Tolerance)>,
            }) == best_pattern(tolerances.entries(), key@, i as nat),
        decreases n - i,
    {
        let (pat, tol) = tolerances.entry(i);
        let pc = chars_of(pat.as_str());
        let ghost prev = best_pattern(tolerances.entries(), key@, i as nat);
        assert(best_pattern(tolerances.entries(), key@, (i + 1) as nat) == {
            match pattern_base(pc@) {
                Some(base) => if under_base(key@, base) && (match prev {
                    Some(p) => base.len() > p.0,
                    None => true,
                }) {
                    Some((base.len(), *tol))
                } else {
                    prev
                },
                None => prev,
            }
        });
        match find_star(&pc) {
            Some(idx) => {
                assert(pattern_base(pc@) == Some(pc@.take(idx as int)));
                assert(pc@.take(idx as int).len() == idx);
                if key_under_base(&kc, &pc, idx) {
                    let better = match best {
                        Some(b) => idx > b.0,
                        None => true,
                    };
                    if better {
                        best = Some((idx, *tol));
                    }
                }
            },
            None => {},
        }
        i = i + 1;
    }
    assert(!tolerances@.contains_key(key@));
    assert(i == tolerances.entries().len());
    match best {
        Some(b) => {
            assert(best_pattern(tolerances.entries(), key@, tolerances.entries().len()) == Some((b.0 as nat, b.1)));
            assert(resolve_spec(key@, tolerances@, tolerances.entries()) == b.1);
            b.1
        },
        None => {
            let star = "*";
            proof {
                reveal_strlit("*");
                assert(star@ =~= seq!['*']);
            }
            match tolerances.get(star) {
                Some(t) => *t,
                None => Tolerance::Abs { value: 0 },
            }
        },
    }
}

/// A listed field's kind and values agree with the two flattened reports.
pub open spec fn diff_entry_ok(d: FieldDiff, e: Map<Seq<char>, u64>, a: Map<Seq<char>, u64>) -> bool {
    let k = d.field@;
    &&& !d.within_tolerance
    &&& if e.contains_key(k) && a.contains_key(k) {
        &&& d.kind == DiffKind::Mismatch
        &&& d.expected == Some(e[k])
        &&& d.actual == Some(a[k])
        &&& !same_non_finite(e[k], a[k])
    } else if e.contains_key(k) {
        &&& d.kind == DiffKind::Missing
        &&& d.expected == Some(e[k])
        &&& d.actual is None
    } else if a.contains_key(k) {
        &&& d.kind == DiffKind::Extra
        &&& d.expected is None
        &&& d.actual == Some(a[k])
    } else {
        false
    }
}

/// Both values are the same non-finite number (the same infinity, or the same
/// NaN bits): a field that no tolerance can judge, and that is never listed.
pub open spec fn same_non_finite(x: u64, y: u64) -> bool {
    x == y && !is_finite_bits(x)
}

/// Some entry of `r` is for field `k`.
pub open spec fn listed(r: Seq<FieldDiff>, k: Seq<char>) -> bool {
    exists|i: int| 0 <= i < r.len() && #[trigger] r[i].field@ == k
}

/// What the diff owes field `k`: listed when it is in one report only, and,
/// when both hold it (unless as the same non-finite value) and it is left out,
/// the tolerance check said it is within tolerance.
pub open spec fn covered<F: Fn(u64, u64, Tolerance) -> bool>(
    r: Seq<FieldDiff>,
    k: Seq<char>,
    e: Map<Seq<char>, u64>,
    a: Map<Seq<char>, u64>,
    t: Tolerance,
    within: F,
) -> bool {
    &&& e.contains_key(k) != a.contains_key(k) ==> listed(r, k)
    &&& (e.contains_key(k) && a.contains_key(k) && !same_non_finite(e[k], a[k]) && !listed(r, k))
        ==> call_ensures(within, (e[k], a[k], t), true)
}

/// `r` is the golden diff of the flattened reports `e` (expected) and `a`
/// (actual) under the tolerances `tm` (with entries `te` in key order): fields
/// ascend, each listed field's kind and values agree with the reports, a
/// mismatch is one that `within` judged out of tolerance, and every field is
/// covered.
pub open spec fn golden_diff<F: Fn(u64, u64, Tolerance) -> bool>(
    r: Seq<FieldDiff>,
    e: Map<Seq<char>, u64>,
    a: Map<Seq<char>, u64>,
    tm: Map<Seq<char>, Tolerance>,
    te: Seq<(Seq<char>, Tolerance)>,
    within: F,
) -> bool {
    &&& forall|i: int, j: int| 0 <= i < j < r.len() ==> chars_lt(#[trigger] r[i].field@, #[trigger] r[j].field@)
    &&& forall|i: int| 0 <= i < r.len() ==> diff_entry_ok(#[trigger] r[i], e, a)
    &&& forall|i: int| 0 <= i < r.len() && (#[trigger] r[i]).kind == DiffKind::Mismatch ==> call_ensures(
        within,
        (e[r[i].field@], a[r[i].field@], resolve_spec(r[i].field@, tm, te)),
        false,
    )
    &&& forall|k: Seq<char>| #[trigger] covered(r, k, e, a, resolve_spec(k, tm, te), within)
}

/// `r` is the golden diff of the reports `expected` and `actual` with every
/// numeric leaf rounded by `round`.
pub open spec fn diffed<R: Fn(u64) -> u64, F: Fn(u64, u64, Tolerance) -> bool>(
    r: Seq<FieldDiff>,
    expected: Json,
    actual: Json,
    tm: Map<Seq<char>, Tolerance>,
    te: Seq<(Seq<char>, Tolerance)>,
    round: R,
    within: F,
) -> bool {
    exists|re: Json, ra: Json| {
        &&& #[trigger] rounded_json(expected, re, round)
        &&& #[trigger] rounded_json(actual, ra, round)
        &&& golden_diff(r, flat(re), flat(ra), tm, te, within)
    }
}

/// Diffs two reports into the fields that differ, in ascending key order,
/// after rounding every numeric leaf of both with `round` (eight decimals for
/// the runner); the entries carry the rounded values. A field held by one
/// report only is `Missing` (only expected) or `Extra` (only actual); a field
/// held by both is a `Mismatch` when `within` says its rounded values are not
/// within the field's resolved tolerance. A perfect match gives no entries.
pub fn diff_reports<R: Fn(u64) -> u64, F: Fn(u64, u64, Tolerance) -> bool>(
    expected: &Json,
    actual: &Json,
    tolerances: &KeyMap<Tolerance>,
    round: &R,
    within: F,
) -> (r: Vec<FieldDiff>)
    requires
        forall|x: u64| round.requires((x,)),
        forall|x: u64, y: u64, t: Tolerance| within.requires((x, y, t)),
    ensures
        diffed(r@, *expected, *actual, tolerances@, tolerances.entries(), *round, within),
{
    let re = round_report(expected, round);
    let ra = round_report(actual, round);
    let d = diff_leaves(&re, &ra, tolerances, within);
    assert(rounded_json(*expected, re, *round) && rounded_json(*actual, ra, *round)
        && golden_diff(d@, flat(re), flat(ra), tolerances@, tolerances.entries(), within));
    d
}

/// Diffs two reports, their leaves compared as given, into the fields that
/// differ, in ascending key order. A field held by one report only is
/// `Missing` (only expected) or `Extra` (only actual); a field held by both is
/// a `Mismatch` when `within` says its values are not within the field's
/// resolved tolerance. A field whose two values are the same infinity (or the
/// same NaN) is never listed: it is the same leaf, and no tolerance arithmetic
/// can judge it.
pub fn diff_leaves<F: Fn(u64, u64, Tolerance) -> bool>(
    expected: &Json,
    actual: &Json,
    tolerances: &KeyMap<Tolerance>,
    within: F,
) -> (r: Vec<FieldDiff>)
    requires
        forall|x: u64, y: u64, t: Tolerance| within.requires((x, y, t)),
    ensures
        golden_diff(r@, flat(*expected), flat(*actual), tolerances@, tolerances.entries(), within),
{
    let fe = flatten_report(expected);
    let fa = flatten_report(actual);
    let le = fe.len();
    let la = fa.len();
    let ghost es = fe.entries();
    let ghost ac = fa.entries();
    let ghost em = flat(*expected);
    let ghost am = flat(*actual);
    let ghost tol_m = tolerances@;
    let ghost tol_e = tolerances.entries();
    proof { lemma_lt_order(); }
    let mut r: Vec<FieldDiff> = Vec::new();
    let mut i: usize = 0;
    let mut j: usize = 0;
    while i < le || j < la
        invariant
            le == es.len(),
            la == ac.len(),
            es == fe.entries(),
            ac == fa.entries(),
            em == fe@,
            am == fa@,
            tol_m == tolerances@,
            tol_e == tolerances.entries(),
            sorted_keys(es),
            sorted_keys(ac),
            em == crate::keymap::entries_map(es),
            am == crate::keymap::entries_map(ac),
            forall|p: int| 0 <= p < es.len() ==> em.contains_key(#[trigger] es[p].0) && em[es[p].0] == es[p].1,
            forall|q: int| 0 <= q < ac.len() ==> am.contains_key(#[trigger] ac[q].0) && am[ac[q].0] == ac[q].1,
            forall|x: u64, y: u64, t: Tolerance| within.requires((x, y, t)),
            i <= le,
            j <= la,
            forall|p: int, q: int| 0 <= p < i && j <= q < la ==> chars_lt(#[trigger] es[p].0, #[trigger] ac[q].0),
            forall|p: int, q: int| i <= p < le && 0 <= q < j ==> chars_lt(#[trigger] ac[q].0, #[trigger] es[p].0),
            forall|x: int, y: int| 0 <= x < y < r@.len() ==> chars_lt(#[trigger] r@[x].field@, #[trigger] r@[y].field@),
            forall|x: int, p: int| 0 <= x < r@.len() && i <= p < le ==> chars_lt(#[trigger] r@[x].field@, #[trigger] es[p].0),
            forall|x: int, q: int| 0 <= x < r@.len() && j <= q < la ==> chars_lt(#[trigger] r@[x].field@, #[trigger] ac[q].0),
            forall|x: int| 0 <= x < r@.len() ==> diff_entry_ok(#[trigger] r@[x], em, am),
            forall|x: int| 0 <= x < r@.len() && (#[trigger] r@[x]).kind == DiffKind::Mismatch ==> call_ensures(
                within,
                (em[r@[x].field@], am[r@[x].field@], resolve_spec(r@[x].field@, tol_m, tol_e)),
                false,
            ),
            forall|p: int| 0 <= p < i ==> #[trigger] covered(r@, es[p].0, em, am, resolve_spec(es[p].0, tol_m, tol_e), within),
            forall|q: int| 0 <= q < j ==> #[trigger] covered(r@, ac[q].0, em, am, resolve_spec(ac[q].0, tol_m, tol_e), within),
        decreases le + la - i - j,
    {
        let ghost r0 = r@;
        proof { lemma_lt_order(); }
        let take_expected: bool;
        let take_actual: bool;
        if j == la {
            take_expected = true;
            take_actual = false;
        } else if i == le {
            take_expected = false;
            take_actual = true;
        } else {
            let ek = chars_of(fe.entry(i).0.as_str());
            let ak = chars_of(fa.entry(j).0.as_str());
            if chars_less(&ek, &ak) {
                take_expected = true;
                take_actual = false;
            } else if chars_less(&ak, &ek) {
                take_expected = false;
                take_actual = true;
            } else {
                take_expected = true;
                take_actual = true;
            }
        }
        if take_expected && !take_actual {
            let (key, value) = fe.entry(i);
            let ghost k = key@;
            proof {
                assert(j < la ==> chars_lt(es[i as int].0, ac[j as int].0));
                assert forall|q: int| 0 <= q < ac.len() implies ac[q].0 != k by {
                    if q == j {
                        assert(chars_lt(es[i as int].0, ac[j as int].0));
                    } else if q < j {
                        assert(chars_lt(ac[q].0, es[i as int].0));
                    } else if q > j {
                        assert(chars_lt(ac[j as int].0, ac[q].0));
                    }
                }
                assert(!am.contains_key(k));
            }
            r.push(FieldDiff {
                field: key.clone(),
                expected: Some(*value),
                actual: None,
                within_tolerance: false,
                kind: DiffKind::Missing,
            });
            proof {
                assert(r@[r0.len() as int].field@ == k);
                assert(listed(r@, k));
                assert forall|p: int| 0 <= p < i + 1 implies #[trigger] covered(r@, es[p].0, em, am,
                    resolve_spec(es[p].0, tol_m, tol_e), within) by {
                    if p < i {
                        assert(covered(r0, es[p].0, em, am, resolve_spec(es[p].0, tol_m, tol_e), within));
                        if listed(r0, es[p].0) {
                            let x = choose|x: int| 0 <= x < r0.len() && #[trigger] r0[x].field@ == es[p].0;
                            assert(r@[x].field@ == es[p].0);
                        }
                    }
                }
                assert forall|q: int| 0 <= q < j implies #[trigger] covered(r@, ac[q].0, em, am,
                    resolve_spec(ac[q].0, tol_m, tol_e), within) by {
                    assert(covered(r0, ac[q].0, em, am, resolve_spec(ac[q].0, tol_m, tol_e), within));
                    if listed(r0, ac[q].0) {
                        let x = choose|x: int| 0 <= x < r0.len() && #[trigger] r0[x].field@ == ac[q].0;
                        assert(r@[x].field@ == ac[q].0);
                    }
                }
            }
            i = i + 1;
        } else if take_actual && !take_expected {
            let (key, value) = fa.entry(j);
            let ghost k = key@;
            proof {
                assert(i < le ==> chars_lt(ac[j as int].0, es[i as int].0));
                assert forall|p: int| 0 <= p < es.len() implies es[p].0 != k by {
                    if p == i {
                        assert(chars_lt(ac[j as int].0, es[i as int].0));
                    } else if p < i {
                        assert(chars_lt(es[p].0, ac[j as int].0));
                    } else if p > i {
                        assert(chars_lt(es[i as int].0, es[p].0));
                    }
                }
                assert(!em.contains_key(k));
            }
            r.push(FieldDiff {
                field: key.clone(),
                expected: None,
                actual: Some(*value),
                within_tolerance: false,
                kind: DiffKind::Extra,
            });
            proof {
                assert(r@[r0.len() as int].field@ == k);
                assert(listed(r@, k));
                assert forall|q: int| 0 <= q < j + 1 implies #[trigger] covered(r@, ac[q].0, em, am,
                    resolve_spec(ac[q].0, tol_m, tol_e), within) by {
                    if q < j {
                        assert(covered(r0, ac[q].0, em, am, resolve_spec(ac[q].0, tol_m, tol_e), within));
                        if listed(r0, ac[q].0) {
                            let x = choose|x: int| 0 <= x < r0.len() && #[trigger] r0[x].field@ == ac[q].0;
                            assert(r@[x].field@ == ac[q].0);
                        }
                    }
                }
                assert forall|p: int| 0 <= p < i implies #[trigger] covered(r@, es[p].0, em, am,
                    resolve_spec(es[p].0, tol_m, tol_e), within) by {
                    assert(covered(r0, es[p].0, em, am, resolve_spec(es[p].0, tol_m, tol_e), within));
                    if listed(r0, es[p].0) {
                        let x = choose|x: int| 0 <= x < r0.len() && #[trigger] r0[x].field@ == es[p].0;
                        assert(r@[x].field@ == es[p].0);
                    }
                }
            }
            j = j + 1;
        } else {
            let (key, ev) = fe.entry(i);
            let (akey, av) = fa.entry(j);
            let ghost k = key@;
            proof {
                if es[i as int].0 != ac[j as int].0 {
                    lemma_lt_total(es[i as int].0, ac[j as int].0);
                }
                assert(akey@ == k);
            }
            let differs = !(*ev == *av && !is_finite(*ev));
            let mut outcome = true;
            if differs {
                let t = resolve(key.as_str(), tolerances);
                outcome = within(*ev, *av, t);
                if !outcome {
                    r.push(FieldDiff {
                        field: key.clone(),
                        expected: Some(*ev),
                        actual: Some(*av),
                        within_tolerance: false,
                        kind: DiffKind::Mismatch,
                    });
                }
            }
            proof {
                let t = resolve_spec(k, tol_m, tol_e);
                if differs && !outcome {
                    assert(r@[r0.len() as int].field@ == k);
                }
                if !(differs && !outcome) {
                    assert(r@ == r0);
                    assert forall|x: int| 0 <= x < r0.len() implies #[trigger] r0[x].field@ != k by {
                        assert(chars_lt(r0[x].field@, es[i as int].0));
                    }
                }
                assert(covered(r@, k, em, am, t, within));
                assert forall|p: int| 0 <= p < i + 1 implies #[trigger] covered(r@, es[p].0, em, am,
                    resolve_spec(es[p].0, tol_m, tol_e), within) by {
                    if p < i {
                        assert(covered(r0, es[p].0, em, am, resolve_spec(es[p].0, tol_m, tol_e), within));
                        if listed(r0, es[p].0) {
                            let x = choose|x: int| 0 <= x < r0.len() && #[trigger] r0[x].field@ == es[p].0;
                            assert(r@[x].field@ == es[p].0);
                        }
                        if !listed(r0, es[p].0) && listed(r@, es[p].0) {
                            let x = choose|x: int| 0 <= x < r@.len() && #[trigger] r@[x].field@ == es[p].0;
                            assert(x == r0.len());
                            assert(chars_lt(es[p].0, ac[j as int].0));
                        }
                    }
                }
                assert forall|q: int| 0 <= q < j + 1 implies #[trigger] covered(r@, ac[q].0, em, am,
                    resolve_spec(ac[q].0, tol_m, tol_e), within) by {
                    if q < j {
                        assert(covered(r0, ac[q].0, em, am, resolve_spec(ac[q].0, tol_m, tol_e), within));
                        if listed(r0, ac[q].0) {
                            let x = choose|x: int| 0 <= x < r0.len() && #[trigger] r0[x].field@ == ac[q].0;
                            assert(r@[x].field@ == ac[q].0);
                        }
                        if !listed(r0, ac[q].0) && listed(r@, ac[q].0) {
                            let x = choose|x: int| 0 <= x < r@.len() && #[trigger] r@[x].field@ == ac[q].0;
                            assert(x == r0.len());
                            assert(chars_lt(ac[q].0, es[i as int].0));
                        }
                    } else {
                        assert(ac[q].0 == k);
                    }
                }
            }
            i = i + 1;
            j = j + 1;
        }
    }
    proof {
        assert forall|k: Seq<char>| #[trigger] covered(r@, k, em, am, resolve_spec(k, tol_m, tol_e), within) by {
            if em.contains_key(k) {
                let p = choose|p: int| 0 <= p < es.len() && #[trigger] es[p].0 == k;
                assert(covered(r@, es[p].0, em, am, resolve_spec(es[p].0, tol_m, tol_e), within));
            } else if am.contains_key(k) {
                let q = choose|q: int| 0 <= q < ac.len() && #[trigger] ac[q].0 == k;
                assert(covered(r@, ac[q].0, em, am, resolve_spec(ac[q].0, tol_m, tol_e), within));
            }
        }
    }
    r
}

/// A report diffs empty against itself wherever the tolerance check accepts a
/// finite value against itself: a field can only be listed against itself when
/// its tolerance rejects equal finite values (a negative tolerance does); a
/// non-finite value is never listed against itself.
pub proof fn lemma_self_diff_empty<F: Fn(u64, u64, Tolerance) -> bool>(
    r: Seq<FieldDiff>,
    e: Map<Seq<char>, u64>,
    tm: Map<Seq<char>, Tolerance>,
    te: Seq<(Seq<char>, Tolerance)>,
    within: F,
)
    requires
        golden_diff(r, e, e, tm, te, within),
        forall|k: Seq<char>| e.contains_key(k) && is_finite_bits(e[k]) ==> !call_ensures(within, (e[k], e[k], #[trigger] resolve_spec(k, tm, te)), false),
    ensures
        r.len() == 0,
{
    if r.len() > 0 {
        assert(diff_entry_ok(r[0], e, e));
        let k = r[0].field@;
        assert(resolve_spec(k, tm, te) == resolve_spec(r[0].field@, tm, te));
    }
}

/// The tolerance check never judges a pair out of tolerance one way round
/// and within tolerance the other way round.
pub open spec fn symmetric_verdicts<F: Fn(u64, u64, Tolerance) -> bool>(within: F) -> bool {
    forall|x: u64, y: u64, t: Tolerance| #[trigger] call_ensures(within, (x, y, t), false)
        ==> !call_ensures(within, (y, x, t), true)
}

/// `d2` is `d1` seen from the other side: same field, expected and actual
/// swapped, a missing field become an extra one and the other way round.
pub open spec fn mirrored(d1: FieldDiff, d2: FieldDiff) -> bool {
    &&& d2.field@ == d1.field@
    &&& d2.expected == d1.actual
    &&& d2.actual == d1.expected
    &&& d2.within_tolerance == d1.within_tolerance
    &&& d2.kind == match d1.kind {
        DiffKind::Missing => DiffKind::Extra,
        DiffKind::Extra => DiffKind::Missing,
        DiffKind::Mismatch => DiffKind::Mismatch,
    }
}

/// A field listed in the diff of `e` against `a` is listed in the diff of `a`
/// against `e`.
proof fn lemma_listed_when_swapped<F: Fn(u64, u64, Tolerance) -> bool>(
    d1: Seq<FieldDiff>,
    d2: Seq<FieldDiff>,
    e: Map<Seq<char>, u64>,
    a: Map<Seq<char>, u64>,
    tm: Map<Seq<char>, Tolerance>,
    te: Seq<(Seq<char>, Tolerance)>,
    within: F,
    k: Seq<char>,
)
    requires
        golden_diff(d1, e, a, tm, te, within),
        golden_diff(d2, a, e, tm, te, within),
        symmetric_verdicts(within),
        listed(d1, k),
    ensures
        listed(d2, k),
{
    let i = choose|i: int| 0 <= i < d1.len() && #[trigger] d1[i].field@ == k;
    assert(diff_entry_ok(d1[i], e, a));
    let t = resolve_spec(k, tm, te);
    assert(covered(d2, k, a, e, t, within));
    if e.contains_key(k) && a.contains_key(k) {
        assert(d1[i].kind == DiffKind::Mismatch);
        assert(call_ensures(within, (e[k], a[k], t), false));
        assert(!call_ensures(within, (a[k], e[k], t), true));
    }
}

/// Two diffs with strictly ascending fields that list the same fields list
/// them at the same places.
proof fn lemma_same_listed_same_fields(r1: Seq<FieldDiff>, r2: Seq<FieldDiff>)
    requires
        forall|i: int, j: int| 0 <= i < j < r1.len() ==> chars_lt(#[trigger] r1[i].field@, #[trigger] r1[j].field@),
        forall|i: int, j: int| 0 <= i < j < r2.len() ==> chars_lt(#[trigger] r2[i].field@, #[trigger] r2[j].field@),
        forall|k: Seq<char>| #[trigger] listed(r1, k) <==> listed(r2, k),
    ensures
        r1.len() == r2.len(),
        forall|i: int| 0 <= i < r1.len() ==> #[trigger] r1[i].field@ == r2[i].field@,
    decreases r1.len(),
{
    lemma_lt_order();
    if r1.len() == 0 {
        if r2.len() > 0 {
            assert(listed(r2, r2[0].field@));
            assert(listed(r1, r2[0].field@));
        }
    } else if r2.len() == 0 {
        assert(listed(r1, r1[0].field@));
        assert(listed(r2, r1[0].field@));
    } else {
        let a = r1[0].field@;
        let b = r2[0].field@;
        assert(listed(r1, a));
        assert(listed(r2, a));
        let j = choose|j: int| 0 <= j < r2.len() && #[trigger] r2[j].field@ == a;
        assert(listed(r2, b));
        assert(listed(r1, b));
        let i = choose|i: int| 0 <= i < r1.len() && #[trigger] r1[i].field@ == b;
        if j > 0 {
            assert(chars_lt(r2[0].field@, r2[j].field@));
            if i > 0 {
                assert(chars_lt(r1[0].field@, r1[i].field@));
            }
        }
        assert(a == b);
        let t1 = r1.drop_first();
        let t2 = r2.drop_first();
        assert forall|k: Seq<char>| #[trigger] listed(t1, k) <==> listed(t2, k) by {
            if listed(t1, k) {
                let x = choose|x: int| 0 <= x < t1.len() && #[trigger] t1[x].field@ == k;
                assert(r1[x + 1].field@ == k);
                assert(chars_lt(r1[0].field@, r1[x + 1].field@));
                assert(listed(r1, k));
                let y = choose|y: int| 0 <= y < r2.len() && #[trigger] r2[y].field@ == k;
                assert(r2[0].field@ == r1[0].field@);
                assert(!chars_lt(k, k));
                assert(y != 0);
                assert(t2[y - 1].field@ == r2[y].field@);
            }
            if listed(t2, k) {
                let y = choose|y: int| 0 <= y < t2.len() && #[trigger] t2[y].field@ == k;
                assert(r2[y + 1].field@ == k);
                assert(chars_lt(r2[0].field@, r2[y + 1].field@));
                assert(listed(r2, k));
                assert(listed(r1, k));
                let x = choose|x: int| 0 <= x < r1.len() && #[trigger] r1[x].field@ == k;
                assert(r2[0].field@ == r1[0].field@);
                assert(!chars_lt(k, k));
                assert(x != 0);
                assert(t1[x - 1].field@ == r1[x].field@);
            }
        }
        assert forall|p: int, q: int| 0 <= p < q < t1.len() implies chars_lt(#[trigger] t1[p].field@, #[trigger] t1[q].field@) by {
            assert(chars_lt(r1[p + 1].field@, r1[q + 1].field@));
        }
        assert forall|p: int, q: int| 0 <= p < q < t2.len() implies chars_lt(#[trigger] t2[p].field@, #[trigger] t2[q].field@) by {
            assert(chars_lt(r2[p + 1].field@, r2[q + 1].field@));
        }
        lemma_same_listed_same_fields(t1, t2);
        assert forall|p: int| 0 <= p < r1.len() implies #[trigger] r1[p].field@ == r2[p].field@ by {
            if p > 0 {
                assert(t1[p - 1].field@ == t2[p - 1].field@);
            }
        }
    }
}

/// Swapping the expected and the actual report mirrors the diff, wherever the
/// tolerance check gives a pair the same verdict both ways round: the same
/// fields, in the same order, with expected and actual swapped and missing and
/// extra fields trading places.
pub proof fn lemma_swapped_diff_mirrors<F: Fn(u64, u64, Tolerance) -> bool>(
    d1: Seq<FieldDiff>,
    d2: Seq<FieldDiff>,
    e: Map<Seq<char>, u64>,
    a: Map<Seq<char>, u64>,
    tm: Map<Seq<char>, Tolerance>,
    te: Seq<(Seq<char>, Tolerance)>,
    within: F,
)
    requires
        golden_diff(d1, e, a, tm, te, within),
        golden_diff(d2, a, e, tm, te, within),
        symmetric_verdicts(within),
    ensures
        d2.len() == d1.len(),
        forall|i: int| 0 <= i < d1.len() ==> mirrored(#[trigger] d1[i], d2[i]),
{
    assert forall|k: Seq<char>| #[trigger] listed(d1, k) <==> listed(d2, k) by {
        if listed(d1, k) {
            lemma_listed_when_swapped(d1, d2, e, a, tm, te, within, k);
        }
        if listed(d2, k) {
            lemma_listed_when_swapped(d2, d1, a, e, tm, te, within, k);
        }
    }
    lemma_same_listed_same_fields(d1, d2);
    assert forall|i: int| 0 <= i < d1.len() implies mirrored(#[trigger] d1[i], d2[i]) by {
        assert(diff_entry_ok(d1[i], e, a));
        assert(diff_entry_ok(d2[i], a, e));
    }
}

} // verus!
