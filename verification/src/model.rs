//! The data model: tolerances, properties, fuzz specs, tests and their results.
//!
//! Numbers that are `f64` values on the wire are held here as the IEEE-754 bit
//! pattern of that `f64` (`u64`); the arithmetic on them is the caller's.

use vstd::prelude::*;
use crate::json::Json;
use crate::keymap::KeyMap;
use crate::text::concat;

verus! {

/// A per-field tolerance for the golden diff. `value` is an `f64` bit pattern.
#[derive(Clone, Copy, Debug, PartialEq, Eq, Structural)]
pub enum Tolerance {
    /// Within `value` of the expected, in absolute terms.
    Abs { value: u64 },
    /// Within `value` relative to `max(|expected|, |actual|, 1.0)`.
    Rel { value: u64 },
}

/// The nature of a field-level difference between two reports.
#[derive(Clone, Copy, Debug, PartialEq, Eq, Structural)]
pub enum DiffKind {
    /// Both reports have the field but the values differ beyond tolerance.
    Mismatch,
    /// The field is in the expected report but not the actual.
    Missing,
    /// The field is in the actual report but not the expected.
    Extra,
}

/// One field that differs between the golden and the actual report. The values
/// are `f64` bit patterns.
#[derive(Debug)]
pub struct FieldDiff {
    pub field: String,
    pub expected: Option<u64>,
    pub actual: Option<u64>,
    pub within_tolerance: bool,
    pub kind: DiffKind,
}

/// An invariant that must hold for a run, independent of any golden value.
/// The bounds are `f64` bit patterns.
#[derive(Debug)]
pub enum Property {
    /// No numeric report field is NaN or infinite.
    NoNaN,
    /// `equity_curve` never falls (within a tiny f64-noise tolerance).
    MonotoneEquity,
    /// `max_drawdown >= -|value|`.
    MaxDrawdownLe { value: u64 },
    /// `num_trades >= value`.
    MinTradesGe { value: u64 },
    /// `sharpe >= value`.
    SharpeGe { value: u64 },
    /// `pnl >= value`.
    PnlGe { value: u64 },
    /// `min <= report[field] <= max`.
    FieldInRange { field: String, min: u64, max: u64 },
}

impl Property {
    /// A copy of this property.
    pub fn duplicate(&self) -> (p: Property)
        ensures
            p == *self,
    {
        match self {
            Property::NoNaN => Property::NoNaN,
            Property::MonotoneEquity => Property::MonotoneEquity,
            Property::MaxDrawdownLe { value } => Property::MaxDrawdownLe { value: *value },
            Property::MinTradesGe { value } => Property::MinTradesGe { value: *value },
            Property::SharpeGe { value } => Property::SharpeGe { value: *value },
            Property::PnlGe { value } => Property::PnlGe { value: *value },
            Property::FieldInRange { field, min, max } => Property::FieldInRange {
                field: field.clone(),
                min: *min,
                max: *max,
            },
        }
    }
}

/// A numeric judgement that a property check asks of its caller. All numbers
/// are `f64` bit patterns.
#[derive(Clone, Copy, Debug, PartialEq, Eq, Structural)]
pub enum Comparison {
    /// `value >= bound`.
    AtLeast { value: u64, bound: u64 },
    /// `drawdown >= -|bound|`: the drawdown is no worse than the bound.
    DrawdownWithin { drawdown: u64, bound: u64 },
    /// `min <= value <= max`.
    Between { value: u64, min: u64, max: u64 },
    /// `cur < prev - 1e-9`: the equity curve fell beyond f64 noise.
    Falls { prev: u64, cur: u64 },
}

/// The outcome of one property check.
#[derive(Debug)]
pub struct PropertyResult {
    pub property: Property,
    pub passed: bool,
    pub detail: Option<String>,
}

/// How the input data is perturbed for a fuzz run. The amounts are `f64` bit
/// patterns.
#[derive(Clone, Copy, Debug, PartialEq, Eq, Structural)]
pub enum Perturbation {
    /// Each price/volume field is scaled by `1 + Uniform(-amount, +amount)`.
    Jitter { amount: u64 },
    /// Each candle is dropped with probability `p` (at least two are kept).
    Dropout { p: u64 },
    /// `Uniform(-amount, +amount) * close` is added to `close` only (gaps).
    GapShock { amount: u64 },
}

/// A fuzz axis: perturb the data `runs` times from `seed` and re-check
/// properties.
#[derive(Clone, Copy, Debug, PartialEq, Eq, Structural)]
pub struct FuzzSpec {
    pub seed: u64,
    pub runs: u32,
    pub perturbation: Perturbation,
}

/// A single strategy test: a strategy, the dataset it runs on, an optional
/// golden report with tolerances, invariant properties, and an optional fuzz
/// axis.
pub struct StrategyTest {
    pub id: String,
    /// The strategy definition as JSON text, forwarded to the backtest engine
    /// as it is: the library never parses it.
    pub strategy: String,
    /// Dataset basename (without `.csv`), resolved under the data directory.
    pub dataset_ref: String,
    /// The pinned golden report; `None` until blessed.
    pub expected: Option<Json>,
    pub tolerances: KeyMap<Tolerance>,
    pub property_checks: Vec<Property>,
    pub fuzz: Option<FuzzSpec>,
}

/// A property that failed on a specific fuzz run.
#[derive(Debug)]
pub struct FuzzFailure {
    pub run: u32,
    pub property: Property,
    pub detail: Option<String>,
}

/// The full result of running one test.
#[derive(Debug)]
pub struct TestResult {
    pub id: String,
    pub passed: bool,
    /// Empty when there is no golden or the match is perfect.
    pub diff: Vec<FieldDiff>,
    pub property_results: Vec<PropertyResult>,
    /// Empty when there is no fuzz axis or every run stayed clean.
    pub fuzz_failures: Vec<FuzzFailure>,
    pub report_hash: Option<String>,
    /// Why the test could not be run, when it could not; such a test fails.
    pub error: Option<String>,
}

/// Every property result in `properties` passed.
pub open spec fn all_passed(properties: Seq<PropertyResult>) -> bool {
    forall|i: int| 0 <= i < properties.len() ==> (#[trigger] properties[i]).passed
}

/// The verdict on a test: its golden diff is empty, every property passed and
/// no fuzz run failed.
pub open spec fn verdict(diff: Seq<FieldDiff>, properties: Seq<PropertyResult>, fuzz: Seq<FuzzFailure>) -> bool {
    diff.len() == 0 && all_passed(properties) && fuzz.len() == 0
}

/// The verdict fails a test whenever any one axis is not clean: a non-empty
/// diff, any single property result that failed, or any fuzz failure; and it
/// passes a test on which all three are clean.
pub proof fn lemma_verdict_needs_every_axis(
    diff: Seq<FieldDiff>,
    properties: Seq<PropertyResult>,
    fuzz: Seq<FuzzFailure>,
)
    ensures
        verdict(diff, properties, fuzz) == (diff.len() == 0 && fuzz.len() == 0
            && forall|i: int| 0 <= i < properties.len() ==> (#[trigger] properties[i]).passed),
        forall|i: int| 0 <= i < properties.len() && !(#[trigger] properties[i]).passed
            ==> !verdict(diff, properties, fuzz),
{
}

impl TestResult {
    /// A test passes iff its golden diff is empty, every property passed, and
    /// no fuzz run failed. A test with no golden simply skips the diff axis.
    pub fn is_pass(diff: &[FieldDiff], properties: &[PropertyResult], fuzz: &[FuzzFailure]) -> (r: bool)
        ensures
            r == verdict(diff@, properties@, fuzz@),
            r == (diff@.len() == 0 && fuzz@.len() == 0
                && forall|i: int| 0 <= i < properties@.len() ==> (#[trigger] properties@[i]).passed),
            forall|i: int| 0 <= i < properties@.len() && !(#[trigger] properties@[i]).passed ==> !r,
    {
        if diff.len() != 0 || fuzz.len() != 0 {
            return false;
        }
        let mut i: usize = 0;
        while i < properties.len()
            invariant
                i <= properties@.len(),
                forall|k: int| 0 <= k < i ==> (#[trigger] properties@[k]).passed,
            decreases properties@.len() - i,
        {
            if !properties[i].passed {
                return false;
            }
            i = i + 1;
        }
        true
    }
}

/// The result of running a whole suite, sorted by test id.
#[derive(Debug)]
pub struct SuiteResult {
    pub results: Vec<TestResult>,
    pub passed: usize,
    pub failed: usize,
}

/// Per-session configuration. The runner is stateless with respect to tests
/// and data, so the session holds only configuration.
#[derive(Clone, Copy, Debug, Default, PartialEq, Eq, Structural)]
pub struct Config {}

/// Everything that can go wrong while running a strategy test.
#[derive(Debug)]
pub enum Error {
    /// A JSON document could not be parsed or serialized; holds the reason.
    Json(String),
    /// A malformed request: an unknown command, an unknown property kind, or a
    /// structurally invalid test.
    BadSpec(String),
    /// The dataset a test references was not provided in the `data` map.
    Data(String),
    /// The backtest engine rejected the strategy or the candles.
    Backtest(String),
}

/// The text of an error: its kind's prefix, then its reason.
pub open spec fn error_text(e: Error) -> Seq<char> {
    match e {
        Error::Json(m) => seq!['j', 's', 'o', 'n', ' ', 'e', 'r', 'r', 'o', 'r', ':', ' '] + m@,
        Error::BadSpec(m) => seq!['b', 'a', 'd', ' ', 's', 'p', 'e', 'c', ':', ' '] + m@,
        Error::Data(m) => seq!['d', 'a', 't', 'a', ' ', 'e', 'r', 'r', 'o', 'r', ':', ' '] + m@,
        Error::Backtest(m) => seq!['b', 'a', 'c', 'k', 't', 'e', 's', 't', ' ', 'e', 'r', 'r', 'o', 'r', ':', ' '] + m@,
    }
}

impl Error {
    /// The error as text, e.g. `bad spec: unknown cmd: nope`.
    pub fn message(&self) -> (s: String)
        ensures
            s@ == error_text(*self),
    {
        match self {
            Error::Json(m) => {
                let s = concat("json error: ", m.as_str());
                proof { reveal_strlit("json error: "); assert(s@ =~= error_text(*self)); }
                s
            },
            Error::BadSpec(m) => {
                let s = concat("bad spec: ", m.as_str());
                proof { reveal_strlit("bad spec: "); assert(s@ =~= error_text(*self)); }
                s
            },
            Error::Data(m) => {
                let s = concat("data error: ", m.as_str());
                proof { reveal_strlit("data error: "); assert(s@ =~= error_text(*self)); }
                s
            },
            Error::Backtest(m) => {
                let s = concat("backtest error: ", m.as_str());
                proof { reveal_strlit("backtest error: "); assert(s@ =~= error_text(*self)); }
                s
            },
        }
    }
}

} // verus!
