//! Invariant property checks over a flattened report.

use vstd::prelude::*;
use crate::json::{flat, flatten_report, Json};
use crate::keymap::{map_entries, KeyMap};
use crate::model::{Comparison, Property, PropertyResult};
use crate::text::{chars_of, concat, decimal, decimal_string, parse_usize, parse_usize_spec};

verus! {

/// The magnitude bits of an `f64` bit pattern (all but the sign).
pub open spec fn bits_abs(b: u64) -> u64 {
    if b >= 0x8000_0000_0000_0000 {
        (b - 0x8000_0000_0000_0000) as u64
    } else {
        b
    }
}

/// The `f64` with bit pattern `b` is NaN.
pub open spec fn is_nan_bits(b: u64) -> bool {
    bits_abs(b) > 0x7ff0_0000_0000_0000
}

/// The `f64` with bit pattern `b` is neither NaN nor infinite.
pub open spec fn is_finite_bits(b: u64) -> bool {
    bits_abs(b) < 0x7ff0_0000_0000_0000
}

/// Whether the `f64` with bit pattern `b` is NaN (`f64::is_nan`).
pub fn is_nan(b: u64) -> (r: bool)
    ensures
        r == is_nan_bits(b),
{
    let a = if b >= 0x8000_0000_0000_0000 { b - 0x8000_0000_0000_0000 } else { b };
    a > 0x7ff0_0000_0000_0000
}

/// Whether the `f64` with bit pattern `b` is finite.
pub fn is_finite(b: u64) -> (r: bool)
    ensures
        r == is_finite_bits(b),
{
    let a = if b >= 0x8000_0000_0000_0000 { b - 0x8000_0000_0000_0000 } else { b };
    a < 0x7ff0_0000_0000_0000
}

/// `metrics.`
pub open spec fn metrics_prefix() -> Seq<char> {
    seq!['m', 'e', 't', 'r', 'i', 'c', 's', '.']
}

/// `equity_curve[`
pub open spec fn equity_prefix() -> Seq<char> {
    seq!['e', 'q', 'u', 'i', 't', 'y', '_', 'c', 'u', 'r', 'v', 'e', '[']
}

/// `missing: `
pub open spec fn missing_prefix() -> Seq<char> {
    seq!['m', 'i', 's', 's', 'i', 'n', 'g', ':', ' ']
}

/// `out of bound: `
pub open spec fn out_of_bound_prefix() -> Seq<char> {
    seq!['o', 'u', 't', ' ', 'o', 'f', ' ', 'b', 'o', 'u', 'n', 'd', ':', ' ']
}

/// `no equity_curve`
pub open spec fn no_equity_detail() -> Seq<char> {
    seq!['n', 'o', ' ', 'e', 'q', 'u', 'i', 't', 'y', '_', 'c', 'u', 'r', 'v', 'e']
}

/// The detail of a fall of the equity curve at point `cur_i` after `prev_i`:
/// `equity_curve[cur_i] < [prev_i]`.
pub open spec fn falls_detail(cur_i: nat, prev_i: nat) -> Seq<char> {
    equity_prefix() + decimal(cur_i) + seq![']', ' ', '<', ' ', '['] + decimal(prev_i) + seq![']']
}

/// A metric named `name`, by its bare name first, then as `metrics.<name>`.
pub open spec fn metric_spec(m: Map<Seq<char>, u64>, name: Seq<char>) -> Option<u64> {
    if m.contains_key(name) {
        Some(m[name])
    } else if m.contains_key(metrics_prefix() + name) {
        Some(m[metrics_prefix() + name])
    } else {
        None
    }
}

/// The index of an `equity_curve[i]` key: the text between `equity_curve[`
/// and the closing `]`, read as `str::parse::<usize>` reads it.
pub open spec fn equity_index(key: Seq<char>) -> Option<usize> {
    if key.len() >= 14 && key.take(13) == equity_prefix() && key.last() == ']' {
        parse_usize_spec(key.subrange(13, key.len() - 1))
    } else {
        None
    }
}

/// The `(index, value)` points of the equity curve among the entries, in
/// entry order.
pub open spec fn collect_points(s: Seq<(Seq<char>, u64)>) -> Seq<(usize, u64)>
    decreases s.len(),
{
    if s.len() == 0 {
        Seq::empty()
    } else {
        let prev = collect_points(s.drop_last());
        match equity_index(s.last().0) {
            Some(i) => prev.push((i, s.last().1)),
            None => prev,
        }
    }
}

/// Where `x` goes in `s`: after every point whose index is not above its own.
pub open spec fn insert_pos(s: Seq<(usize, u64)>, x: (usize, u64)) -> int
    decreases s.len(),
{
    if s.len() == 0 {
        0
    } else if x.0 < s.last().0 {
        insert_pos(s.drop_last(), x)
    } else {
        s.len() as int
    }
}

/// The points sorted by index; points with equal indices keep their order.
pub open spec fn sort_points(s: Seq<(usize, u64)>) -> Seq<(usize, u64)>
    decreases s.len(),
{
    if s.len() == 0 {
        Seq::empty()
    } else {
        let t = sort_points(s.drop_last());
        t.insert(insert_pos(t, s.last()), s.last())
    }
}

/// The equity curve of a flattened report, sorted by index.
pub open spec fn equity_curve(s: Seq<(Seq<char>, u64)>) -> Seq<(usize, u64)> {
    sort_points(collect_points(s))
}

/// `r.detail` is the text `d`.
pub open spec fn detail_is(r: PropertyResult, d: Seq<char>) -> bool {
    r.detail matches Some(t) && t@ == d
}

/// How a single-metric check comes out: judged by the caller when the metric
/// is present and not NaN (a failure then reads `out of bound: <name>`), a
/// failure with `missing: <name>` otherwise. Every failure carries a detail.
pub open spec fn metric_check_ok<F: Fn(Comparison) -> bool>(
    m: Map<Seq<char>, u64>,
    name: Seq<char>,
    ask: spec_fn(u64) -> Comparison,
    r: PropertyResult,
    judge: F,
) -> bool {
    match metric_spec(m, name) {
        Some(v) => if !is_nan_bits(v) {
            &&& call_ensures(judge, (ask(v),), r.passed)
            &&& r.passed ==> r.detail is None
            &&& !r.passed ==> detail_is(r, out_of_bound_prefix() + name)
        } else {
            !r.passed && detail_is(r, missing_prefix() + name)
        },
        None => !r.passed && detail_is(r, missing_prefix() + name),
    }
}

/// How the equity-curve check comes out on the sorted points `pts`.
pub open spec fn monotone_ok<F: Fn(Comparison) -> bool>(pts: Seq<(usize, u64)>, r: PropertyResult, judge: F) -> bool {
    if pts.len() == 0 {
        !r.passed && detail_is(r, no_equity_detail())
    } else if r.passed {
        r.detail is None && forall|w: int| 0 <= w < pts.len() - 1 ==> call_ensures(
            judge,
            (Comparison::Falls { prev: #[trigger] pts[w].1, cur: pts[w + 1].1 },),
            false,
        )
    } else {
        exists|w: int| #![trigger pts[w]] 0 <= w < pts.len() - 1 && {
            &&& detail_is(r, falls_detail(pts[w + 1].0 as nat, pts[w].0 as nat))
            &&& call_ensures(judge, (Comparison::Falls { prev: pts[w].1, cur: pts[w + 1].1 },), true)
            &&& forall|v: int| 0 <= v < w ==> call_ensures(
                judge,
                (Comparison::Falls { prev: #[trigger] pts[v].1, cur: pts[v + 1].1 },),
                false,
            )
        }
    }
}

/// How the no-NaN check comes out on the entries `s` in key order: it fails
/// on the first non-finite value, naming its key.
pub open spec fn no_nan_ok(s: Seq<(Seq<char>, u64)>, r: PropertyResult) -> bool {
    if forall|i: int| 0 <= i < s.len() ==> is_finite_bits(#[trigger] s[i].1) {
        r.passed && r.detail is None
    } else {
        !r.passed && exists|p: int| 0 <= p < s.len() && {
            &&& !is_finite_bits(#[trigger] s[p].1)
            &&& detail_is(r, s[p].0)
            &&& forall|q: int| 0 <= q < p ==> is_finite_bits(#[trigger] s[q].1)
        }
    }
}

/// The outcome of checking property `p` against the flattened report whose
/// map is `m` and whose entries in key order are `s`.
#[verifier::opaque]
pub open spec fn check_ok<F: Fn(Comparison) -> bool>(
    p: Property,
    m: Map<Seq<char>, u64>,
    s: Seq<(Seq<char>, u64)>,
    r: PropertyResult,
    judge: F,
) -> bool {
    &&& r.property == p
    &&& match p {
        Property::NoNaN => no_nan_ok(s, r),
        Property::MonotoneEquity => monotone_ok(equity_curve(s), r, judge),
        Property::MaxDrawdownLe { value } => metric_check_ok(
            m,
            seq!['m', 'a', 'x', '_', 'd', 'r', 'a', 'w', 'd', 'o', 'w', 'n'],
            |v: u64| Comparison::DrawdownWithin { drawdown: v, bound: value },
            r,
            judge,
        ),
        Property::MinTradesGe { value } => metric_check_ok(
            m,
            seq!['n', 'u', 'm', '_', 't', 'r', 'a', 'd', 'e', 's'],
            |v: u64| Comparison::AtLeast { value: v, bound: value },
            r,
            judge,
        ),
        Property::SharpeGe { value } => metric_check_ok(
            m,
            seq!['s', 'h', 'a', 'r', 'p', 'e'],
            |v: u64| Comparison::AtLeast { value: v, bound: value },
            r,
            judge,
        ),
        Property::PnlGe { value } => metric_check_ok(
            m,
            seq!['p', 'n', 'l'],
            |v: u64| Comparison::AtLeast { value: v, bound: value },
            r,
            judge,
        ),
        Property::FieldInRange { field, min, max } => metric_check_ok(
            m,
            field@,
            |v: u64| Comparison::Between { value: v, min: min, max: max },
            r,
            judge,
        ),
    }
}

/// Resolves a metric by its bare name, falling back to the `metrics.<name>`
/// path: engine reports nest their scalars under `metrics`, a synthetic report
/// may put them at the top level.
pub fn resolve_metric(flat: &KeyMap<u64>, name: &str) -> (r: Option<u64>)
    ensures
        r == metric_spec(flat@, name@),
{
    match flat.get(name) {
        Some(v) => Some(*v),
        None => {
            let nested = concat("metrics.", name);
            proof {
                reveal_strlit("metrics.");
                assert(nested@ =~= metrics_prefix() + name@);
            }
            match flat.get(nested.as_str()) {
                Some(v) => Some(*v),
                None => None,
            }
        },
    }
}

/// The index of an `equity_curve[i]` key, if it is one.
fn equity_key_index(key: &str) -> (r: Option<usize>)
    ensures
        r == equity_index(key@),
{
    let kc = chars_of(key);
    let pc = chars_of("equity_curve[");
    proof {
        reveal_strlit("equity_curve[");
        assert(pc@ =~= equity_prefix());
    }
    if kc.len() < 14 || kc[kc.len() - 1] != ']' {
        proof {
            if kc.len() >= 14 {
                assert(key@.last() == kc@[kc.len() - 1]);
            }
            assert(equity_index(key@) is None);
        }
        return None;
    }
    let mut i: usize = 0;
    while i < 13
        invariant
            i <= 13,
            kc.len() >= 14,
            kc@ == key@,
            pc@ == equity_prefix(),
            forall|j: int| 0 <= j < i ==> kc@[j] == pc@[j],
        decreases 13 - i,
    {
        if kc[i] != pc[i] {
            assert(kc@.take(13)[i as int] != equity_prefix()[i as int]);
            return None;
        }
        i = i + 1;
    }
    assert(kc@.take(13) =~= equity_prefix());
    let mut mid: Vec<char> = Vec::new();
    let mut j: usize = 13;
    while j < kc.len() - 1
        invariant
            13 <= j <= kc.len() - 1,
            kc.len() >= 14,
            kc@ == key@,
            mid@ == kc@.subrange(13, j as int),
        decreases kc.len() - 1 - j,
    {
        mid.push(kc[j]);
        assert(kc@.subrange(13, j + 1) =~= kc@.subrange(13, j as int).push(kc@[j as int]));
        j = j + 1;
    }
    parse_usize(&mid)
}

/// The equity curve of a flattened report: the `(i, value)` of every
/// `equity_curve[i]` key, sorted by `i`. The map orders keys as text, so
/// `equity_curve[10]` comes before `equity_curve[2]`; the sort restores the
/// numeric order.
pub fn equity_points(flat: &KeyMap<u64>) -> (r: Vec<(usize, u64)>)
    ensures
        r@ == equity_curve(flat.entries()),
{
    let n = flat.len();
    let ghost s = flat.entries();
    let mut pts: Vec<(usize, u64)> = Vec::new();
    let mut i: usize = 0;
    while i < n
        invariant
            i <= n,
            n == s.len(),
            s == flat.entries(),
            pts@ == collect_points(s.take(i as int)),
        decreases n - i,
    {
        let (key, value) = flat.entry(i);
        let idx = equity_key_index(key.as_str());
        assert(s.take(i + 1).drop_last() =~= s.take(i as int));
        assert(s.take(i + 1).last() == s[i as int]);
        match idx {
            Some(x) => {
                pts.push((x, *value));
            },
            None => {},
        }
        i = i + 1;
    }
    assert(s.take(n as int) =~= s);
    let mut sorted: Vec<(usize, u64)> = Vec::new();
    let mut k: usize = 0;
    while k < pts.len()
        invariant
            k <= pts.len(),
            sorted@ == sort_points(pts@.take(k as int)),
        decreases pts.len() - k,
    {
        let x = pts[k];
        let mut pos: usize = sorted.len();
        assert(sorted@.take(pos as int) =~= sorted@);
        while pos > 0 && x.0 < sorted[pos - 1].0
            invariant
                pos <= sorted.len(),
                insert_pos(sorted@, x) == insert_pos(sorted@.take(pos as int), x),
            decreases pos,
        {
            assert(sorted@.take(pos as int).drop_last() =~= sorted@.take(pos - 1));
            pos = pos - 1;
        }
        proof {
            if pos > 0 {
                assert(sorted@.take(pos as int).last() == sorted@[pos - 1]);
            }
            assert(insert_pos(sorted@.take(pos as int), x) == pos);
            assert(pts@.take(k + 1).drop_last() =~= pts@.take(k as int));
            assert(pts@.take(k + 1).last() == x);
        }
        sorted.insert(pos, x);
        k = k + 1;
    }
    assert(pts@.take(pts.len() as int) =~= pts@);
    sorted
}

/// What a single-metric check asks of its caller.
enum Ask {
    AtLeast(u64),
    Drawdown(u64),
    Between(u64, u64),
}

spec fn ask_spec(a: Ask, v: u64) -> Comparison {
    match a {
        Ask::AtLeast(b) => Comparison::AtLeast { value: v, bound: b },
        Ask::Drawdown(b) => Comparison::DrawdownWithin { drawdown: v, bound: b },
        Ask::Between(lo, hi) => Comparison::Between { value: v, min: lo, max: hi },
    }
}

fn check_metric<F: Fn(Comparison) -> bool>(
    flat: &KeyMap<u64>,
    name: &str,
    ask: Ask,
    judge: &F,
) -> (r: (bool, Option<String>))
    requires
        forall|c: Comparison| judge.requires((c,)),
    ensures
        match metric_spec(flat@, name@) {
            Some(v) => if !is_nan_bits(v) {
                &&& call_ensures(*judge, (ask_spec(ask, v),), r.0)
                &&& r.0 ==> r.1 is None
                &&& !r.0 ==> (r.1 matches Some(t) && t@ == out_of_bound_prefix() + name@)
            } else {
                !r.0 && (r.1 matches Some(t) && t@ == missing_prefix() + name@)
            },
            None => !r.0 && (r.1 matches Some(t) && t@ == missing_prefix() + name@),
        },
{
    let found = resolve_metric(flat, name);
    match found {
        Some(v) => {
            if !is_nan(v) {
                let c = match ask {
                    Ask::AtLeast(b) => Comparison::AtLeast { value: v, bound: b },
                    Ask::Drawdown(b) => Comparison::DrawdownWithin { drawdown: v, bound: b },
                    Ask::Between(lo, hi) => Comparison::Between { value: v, min: lo, max: hi },
                };
                let passed = judge(c);
                if passed {
                    return (true, None);
                }
                let detail = concat("out of bound: ", name);
                proof {
                    reveal_strlit("out of bound: ");
                    assert(detail@ =~= out_of_bound_prefix() + name@);
                }
                return (false, Some(detail));
            }
        },
        None => {},
    }
    let detail = concat("missing: ", name);
    proof {
        reveal_strlit("missing: ");
        assert(detail@ =~= missing_prefix() + name@);
    }
    (false, Some(detail))
}

fn falls_text(cur_i: usize, prev_i: usize) -> (s: String)
    ensures
        s@ == falls_detail(cur_i as nat, prev_i as nat),
{
    let a = decimal_string(cur_i);
    let b = decimal_string(prev_i);
    let s1 = concat("equity_curve[", a.as_str());
    let s2 = concat(s1.as_str(), "] < [");
    let s3 = concat(s2.as_str(), b.as_str());
    let s4 = concat(s3.as_str(), "]");
    proof {
        reveal_strlit("equity_curve[");
        reveal_strlit("] < [");
        reveal_strlit("]");
        assert(s4@ =~= falls_detail(cur_i as nat, prev_i as nat));
    }
    s4
}

#[verifier::rlimit(40)]
fn check_monotone<F: Fn(Comparison) -> bool>(flat: &KeyMap<u64>, judge: &F) -> (r: (bool, Option<String>))
    requires
        forall|c: Comparison| judge.requires((c,)),
    ensures
        monotone_ok(
            equity_curve(flat.entries()),
            PropertyResult { property: Property::MonotoneEquity, passed: r.0, detail: r.1 },
            *judge,
        ),
{
    let pts = equity_points(flat);
    if pts.len() == 0 {
        let d = "no equity_curve".to_owned();
        proof {
            reveal_strlit("no equity_curve");
            assert(d@ =~= no_equity_detail());
        }
        return (false, Some(d));
    }
    let mut w: usize = 0;
    while w + 1 < pts.len()
        invariant
            w < pts.len(),
            pts@ == equity_curve(flat.entries()),
            forall|c: Comparison| judge.requires((c,)),
            forall|v: int| 0 <= v < w ==> call_ensures(
                *judge,
                (Comparison::Falls { prev: #[trigger] pts@[v].1, cur: pts@[v + 1].1 },),
                false,
            ),
        decreases pts.len() - w,
    {
        let fell = judge(Comparison::Falls { prev: pts[w].1, cur: pts[w + 1].1 });
        if fell {
            let d = falls_text(pts[w + 1].0, pts[w].0);
            let r = (false, Some(d));
            proof {
                let pr = PropertyResult { property: Property::MonotoneEquity, passed: r.0, detail: r.1 };
                let ww = w as int;
                assert(detail_is(pr, falls_detail(pts@[ww + 1].0 as nat, pts@[ww].0 as nat)));
                assert(0 <= ww < pts@.len() - 1 && {
                    &&& detail_is(pr, falls_detail(pts@[ww + 1].0 as nat, pts@[ww].0 as nat))
                    &&& call_ensures(*judge, (Comparison::Falls { prev: pts@[ww].1, cur: pts@[ww + 1].1 },), true)
                    &&& forall|v: int| 0 <= v < ww ==> call_ensures(
                        *judge,
                        (Comparison::Falls { prev: #[trigger] pts@[v].1, cur: pts@[v + 1].1 },),
                        false,
                    )
                });
            }
            return r;
        }
        w = w + 1;
    }
    (true, None)
}

fn check_no_nan(flat: &KeyMap<u64>) -> (r: (bool, Option<String>))
    ensures
        no_nan_ok(flat.entries(), PropertyResult { property: Property::NoNaN, passed: r.0, detail: r.1 }),
{
    let n = flat.len();
    let ghost s = flat.entries();
    let mut i: usize = 0;
    while i < n
        invariant
            i <= n,
            n == s.len(),
            s == flat.entries(),
            forall|q: int| 0 <= q < i ==> is_finite_bits(#[trigger] s[q].1),
        decreases n - i,
    {
        let (key, value) = flat.entry(i);
        if !is_finite(*value) {
            let r = (false, Some(key.clone()));
            proof {
                let pr = PropertyResult { property: Property::NoNaN, passed: r.0, detail: r.1 };
                assert(!is_finite_bits(s[i as int].1));
                assert(detail_is(pr, s[i as int].0));
            }
            return r;
        }
        i = i + 1;
    }
    (true, None)
}

/// Checks one property against a flattened report. Numeric judgements are
/// asked of `judge`; NaN-ness is read from the bit patterns. A metric that is
/// missing or NaN fails with the detail `missing: <name>`.
pub fn check<F: Fn(Comparison) -> bool>(property: &Property, flat: &KeyMap<u64>, judge: &F) -> (r: PropertyResult)
    requires
        forall|c: Comparison| judge.requires((c,)),
    ensures
        check_ok(*property, flat@, flat.entries(), r, *judge),
{
    let (passed, detail) = match property {
        Property::NoNaN => check_no_nan(flat),
        Property::MonotoneEquity => check_monotone(flat, judge),
        Property::MaxDrawdownLe { value } => {
            proof { reveal_strlit("max_drawdown"); }
            check_metric(flat, "max_drawdown", Ask::Drawdown(*value), judge)
        },
        Property::MinTradesGe { value } => {
            proof { reveal_strlit("num_trades"); }
            check_metric(flat, "num_trades", Ask::AtLeast(*value), judge)
        },
        Property::SharpeGe { value } => {
            proof { reveal_strlit("sharpe"); }
            check_metric(flat, "sharpe", Ask::AtLeast(*value), judge)
        },
        Property::PnlGe { value } => {
            proof { reveal_strlit("pnl"); }
            check_metric(flat, "pnl", Ask::AtLeast(*value), judge)
        },
        Property::FieldInRange { field, min, max } => check_metric(
            flat,
            field.as_str(),
            Ask::Between(*min, *max),
            judge,
        ),
    };
    let r = PropertyResult { property: property.duplicate(), passed, detail };
    proof {
        reveal(check_ok);
        match *property {
            Property::MaxDrawdownLe { value } => {
                assert("max_drawdown"@ =~= seq!['m', 'a', 'x', '_', 'd', 'r', 'a', 'w', 'd', 'o', 'w', 'n']);
            },
            Property::MinTradesGe { value } => {
                assert("num_trades"@ =~= seq!['n', 'u', 'm', '_', 't', 'r', 'a', 'd', 'e', 's']);
            },
            Property::SharpeGe { value } => {
                assert("sharpe"@ =~= seq!['s', 'h', 'a', 'r', 'p', 'e']);
            },
            Property::PnlGe { value } => {
                assert("pnl"@ =~= seq!['p', 'n', 'l']);
            },
            _ => {},
        }
    }
    r
}

/// Checks every property against `report`, one result per property, in the
/// order the properties were given.
pub fn check_all<F: Fn(Comparison) -> bool>(properties: &Vec<Property>, report: &Json, judge: &F) -> (r: Vec<PropertyResult>)
    requires
        forall|c: Comparison| judge.requires((c,)),
    ensures
        r@.len() == properties@.len(),
        forall|i: int| 0 <= i < r@.len() ==> check_ok(
            properties@[i],
            flat(*report),
            map_entries(flat(*report)),
            #[trigger] r@[i],
            *judge,
        ),
{
    let flat_map = flatten_report(report);
    let _ = flat_map.len();
    let mut r: Vec<PropertyResult> = Vec::new();
    let mut i: usize = 0;
    while i < properties.len()
        invariant
            i <= properties@.len(),
            r@.len() == i,
            flat_map@ == flat(*report),
            forall|c: Comparison| judge.requires((c,)),
            forall|j: int| 0 <= j < i ==> check_ok(
                properties@[j],
                flat_map@,
                flat_map.entries(),
                #[trigger] r@[j],
                *judge,
            ),
        decreases properties@.len() - i,
    {
        r.push(check(&properties[i], &flat_map, judge));
        i = i + 1;
    }
    r
}

/// A check's detail is present exactly when the check failed: every failing
/// property says why, and a passing one says nothing.
pub proof fn lemma_detail_iff_failed<F: Fn(Comparison) -> bool>(
    p: Property,
    m: Map<Seq<char>, u64>,
    s: Seq<(Seq<char>, u64)>,
    r: PropertyResult,
    judge: F,
)
    requires
        check_ok(p, m, s, r, judge),
    ensures
        r.detail is None <==> r.passed,
{
    reveal(check_ok);
    match p {
        Property::MonotoneEquity => {
            if !r.passed && equity_curve(s).len() > 0 {
                let w = choose|w: int| #![trigger equity_curve(s)[w]] 0 <= w < equity_curve(s).len() - 1 && {
                    &&& detail_is(r, falls_detail(equity_curve(s)[w + 1].0 as nat, equity_curve(s)[w].0 as nat))
                    &&& call_ensures(judge, (Comparison::Falls { prev: equity_curve(s)[w].1, cur: equity_curve(s)[w + 1].1 },), true)
                    &&& forall|v: int| 0 <= v < w ==> call_ensures(
                        judge,
                        (Comparison::Falls { prev: #[trigger] equity_curve(s)[v].1, cur: equity_curve(s)[v + 1].1 },),
                        false,
                    )
                };
            }
        },
        _ => {},
    }
}

} // verus!
