//! Results of the conformance runner: one `CaseResult` per case file, the mismatches
//! between expected and observed values, and the suite summary.
use vstd::prelude::*;

verus! {

/// An observed or expected value as the result format writes it: no value, an unsigned
/// number, a string or a byte array.
#[derive(Debug, Clone)]
pub enum JsonValue {
    Null,
    Number(u64),
    Text(String),
    Bytes(Vec<u8>),
}

/// The mathematical content of a `JsonValue`.
pub enum JsonValueView {
    Null,
    Number(u64),
    Text(Seq<char>),
    Bytes(Seq<u8>),
}

impl View for JsonValue {
    type V = JsonValueView;

    open spec fn view(&self) -> JsonValueView {
        match self {
            JsonValue::Null => JsonValueView::Null,
            JsonValue::Number(n) => JsonValueView::Number(*n),
            JsonValue::Text(s) => JsonValueView::Text(s@),
            JsonValue::Bytes(b) => JsonValueView::Bytes(b@),
        }
    }
}

/// The value of an optional number: `Null` when absent.
pub open spec fn opt_number(v: Option<u64>) -> JsonValueView {
    match v {
        Some(n) => JsonValueView::Number(n),
        None => JsonValueView::Null,
    }
}

/// The value of an optional string: `Null` when absent.
pub open spec fn opt_text(v: Option<Seq<char>>) -> JsonValueView {
    match v {
        Some(s) => JsonValueView::Text(s),
        None => JsonValueView::Null,
    }
}

fn bytes_equal(a: &[u8], b: &[u8]) -> (r: bool)
    ensures
        r == (a@ == b@),
{
    if a.len() != b.len() {
        return false;
    }
    let mut k: usize = 0;
    while k < a.len()
        invariant
            a@.len() == b@.len(),
            k <= a@.len(),
            forall|j: int| 0 <= j < k ==> a@[j] == b@[j],
        decreases a@.len() - k,
    {
        if a[k] != b[k] {
            return false;
        }
        k = k + 1;
    }
    assert(a@ =~= b@);
    true
}

impl JsonValue {
    /// A value of an optional number.
    pub fn from_opt(v: Option<u64>) -> (r: JsonValue)
        ensures
            r@ == opt_number(v),
    {
        match v {
            Some(n) => JsonValue::Number(n),
            None => JsonValue::Null,
        }
    }

    /// A value holding a copy of `s`.
    pub fn text(s: &str) -> (r: JsonValue)
        ensures
            r@ == JsonValueView::Text(s@),
    {
        JsonValue::Text(crate::text::owned(s))
    }

    /// A value of an optional string.
    pub fn opt_text(s: Option<&str>) -> (r: JsonValue)
        ensures
            r@ == opt_text(match s { Some(t) => Some(t@), None => None }),
    {
        match s {
            Some(t) => JsonValue::text(t),
            None => JsonValue::Null,
        }
    }

    /// Whether two values are equal.
    pub fn same(&self, other: &JsonValue) -> (r: bool)
        ensures
            r == (self@ == other@),
    {
        match (self, other) {
            (JsonValue::Null, JsonValue::Null) => true,
            (JsonValue::Number(a), JsonValue::Number(b)) => *a == *b,
            (JsonValue::Text(a), JsonValue::Text(b)) => crate::text::str_eq(a.as_str(), b.as_str()),
            (JsonValue::Bytes(a), JsonValue::Bytes(b)) => bytes_equal(a.as_slice(), b.as_slice()),
            _ => false,
        }
    }
}

/// One difference between an expected and an observed value, at a dotted path.
#[derive(Debug, Clone)]
pub struct Mismatch {
    pub path: String,
    pub expected: JsonValue,
    pub actual: JsonValue,
}

/// The mathematical content of a `Mismatch`.
pub struct MismatchView {
    pub path: Seq<char>,
    pub expected: JsonValueView,
    pub actual: JsonValueView,
}

impl View for Mismatch {
    type V = MismatchView;

    open spec fn view(&self) -> MismatchView {
        MismatchView { path: self.path@, expected: self.expected@, actual: self.actual@ }
    }
}

/// The views of a list of mismatches.
pub open spec fn mismatch_views(s: Seq<Mismatch>) -> Seq<MismatchView> {
    s.map_values(|m: Mismatch| m@)
}

/// The mismatch recorded for `path` when `expected` and `actual` differ, else nothing.
pub open spec fn check(path: Seq<char>, expected: JsonValueView, actual: JsonValueView) -> Seq<MismatchView> {
    if expected == actual {
        Seq::empty()
    } else {
        seq![MismatchView { path, expected, actual }]
    }
}

/// Records a mismatch at `path` when `expected` and `actual` differ.
pub fn compare_value(path: String, expected: JsonValue, actual: JsonValue, out: &mut Vec<Mismatch>)
    ensures
        mismatch_views(final(out)@) == mismatch_views(old(out)@) + check(path@, expected@, actual@),
{
    let ghost before = out@;
    if !expected.same(&actual) {
        let ghost m = MismatchView { path: path@, expected: expected@, actual: actual@ };
        out.push(Mismatch { path, expected, actual });
        assert(mismatch_views(out@) =~= mismatch_views(before) + seq![m]);
    } else {
        assert(mismatch_views(out@) =~= mismatch_views(before) + Seq::<MismatchView>::empty());
    }
}

/// Records a mismatch at `path` when two optional numbers differ.
pub fn compare_option(path: String, expected: Option<u64>, actual: Option<u64>, out: &mut Vec<Mismatch>)
    ensures
        mismatch_views(final(out)@) == mismatch_views(old(out)@) + check(path@, opt_number(expected), opt_number(actual)),
{
    compare_value(path, JsonValue::from_opt(expected), JsonValue::from_opt(actual), out);
}

/// The format tag of every result line.
pub const RESULT_FORMAT: &'static str = "kagura-conformance-result";

/// The outcome of one case file: a finished case (`pass` or `fail`, with the mismatches)
/// or an `error` that stopped it, with the file it came from and a message.
#[derive(Debug, Clone)]
pub struct CaseResult {
    pub format: &'static str,
    pub version: u32,
    pub suite: &'static str,
    pub case: Option<String>,
    pub source: Option<String>,
    pub level: Option<u8>,
    pub result: &'static str,
    pub mismatches: Vec<Mismatch>,
    pub message: Option<String>,
}

/// The `result` tag of a finished case with `n` mismatches.
pub open spec fn finished_tag(n: nat) -> Seq<char> {
    if n == 0 { "pass"@ } else { "fail"@ }
}

/// `r` is the result of a finished case of `suite` named `case` at `level` with the
/// mismatches `ms`.
pub open spec fn is_finished(r: CaseResult, suite: Seq<char>, case: Seq<char>, level: Option<u8>, ms: Seq<MismatchView>) -> bool {
    &&& r.format@ == RESULT_FORMAT@
    &&& r.version == 1
    &&& r.suite@ == suite
    &&& r.case matches Some(c) && c@ == case
    &&& r.source is None
    &&& r.level == level
    &&& r.result@ == finished_tag(ms.len())
    &&& mismatch_views(r.mismatches@) == ms
    &&& r.message is None
}

/// `r` is the error result of `suite` for the file `source` with `message`.
pub open spec fn is_error(r: CaseResult, suite: Seq<char>, source: Seq<char>, message: Seq<char>) -> bool {
    &&& r.format@ == RESULT_FORMAT@
    &&& r.version == 1
    &&& r.suite@ == suite
    &&& r.case is None
    &&& r.source matches Some(s) && s@ == source
    &&& r.level is None
    &&& r.result@ == "error"@
    &&& r.mismatches@.len() == 0
    &&& r.message matches Some(m) && m@ == message
}

impl CaseResult {
    /// The result of a case that ran to the end: `pass` without mismatches, else `fail`.
    pub fn finished(suite: &'static str, case: String, level: Option<u8>, mismatches: Vec<Mismatch>) -> (r: Self)
        ensures
            is_finished(r, suite@, case@, level, mismatch_views(mismatches@)),
    {
        proof { reveal_strlit("kagura-conformance-result"); reveal_strlit("pass"); reveal_strlit("fail"); }
        let result = if mismatches.len() == 0 { "pass" } else { "fail" };
        CaseResult {
            format: RESULT_FORMAT,
            version: 1,
            suite,
            case: Some(case),
            source: None,
            level,
            result,
            mismatches,
            message: None,
        }
    }

    /// The result of a case file that could not be run.
    pub fn error(suite: &'static str, source: String, message: String) -> (r: Self)
        ensures
            is_error(r, suite@, source@, message@),
    {
        CaseResult {
            format: RESULT_FORMAT,
            version: 1,
            suite,
            case: None,
            source: Some(source),
            level: None,
            result: "error",
            mismatches: Vec::new(),
            message: Some(message),
        }
    }
}

/// Number of results in `s` whose tag is `tag`.
pub open spec fn count_tag(s: Seq<CaseResult>, tag: Seq<char>) -> nat
    decreases s.len(),
{
    if s.len() == 0 {
        0
    } else {
        count_tag(s.drop_last(), tag) + if s.last().result@ == tag { 1nat } else { 0nat }
    }
}

/// Totals of a run: all results, and those that passed, failed and stopped in error.
#[derive(Debug, Clone, Copy, PartialEq, Eq, Structural)]
pub struct Summary {
    pub total: usize,
    pub passed: usize,
    pub failed: usize,
    pub errors: usize,
}

impl Summary {
    /// Counts the results by their tag.
    pub fn from_results(results: &[CaseResult]) -> (s: Self)
        ensures
            s.total == results@.len(),
            s.passed == count_tag(results@, "pass"@),
            s.failed == count_tag(results@, "fail"@),
            s.errors == count_tag(results@, "error"@),
    {
        let mut passed: usize = 0;
        let mut failed: usize = 0;
        let mut errors: usize = 0;
        let mut k: usize = 0;
        while k < results.len()
            invariant
                k <= results@.len(),
                passed == count_tag(results@.take(k as int), "pass"@),
                failed == count_tag(results@.take(k as int), "fail"@),
                errors == count_tag(results@.take(k as int), "error"@),
                passed <= k,
                failed <= k,
                errors <= k,
            decreases results@.len() - k,
        {
            assert(results@.take(k + 1).drop_last() =~= results@.take(k as int));
            let tag = results[k].result;
            if crate::text::str_eq(tag, "pass") {
                passed = passed + 1;
            }
            if crate::text::str_eq(tag, "fail") {
                failed = failed + 1;
            }
            if crate::text::str_eq(tag, "error") {
                errors = errors + 1;
            }
            k = k + 1;
        }
        assert(results@.take(k as int) =~= results@);
        Summary { total: results.len(), passed, failed, errors }
    }
}

/// Every result that `finished` or `error` makes carries exactly one of the three tags.
pub open spec fn well_tagged(r: CaseResult) -> bool {
    r.result@ == "pass"@ || r.result@ == "fail"@ || r.result@ == "error"@
}

proof fn lemma_tags_distinct()
    ensures
        "pass"@ != "fail"@,
        "pass"@ != "error"@,
        "fail"@ != "error"@,
{
    reveal_strlit("pass");
    reveal_strlit("fail");
    reveal_strlit("error");
    assert("pass"@[0] != "fail"@[0]);
    assert("pass"@[0] != "error"@[0]);
    assert("fail"@[0] != "error"@[0]);
}

/// When every result carries one of the three tags, the three counts add up to the total.
pub proof fn lemma_summary_partitions(s: Seq<CaseResult>)
    requires
        forall|i: int| 0 <= i < s.len() ==> well_tagged(#[trigger] s[i]),
    ensures
        count_tag(s, "pass"@) + count_tag(s, "fail"@) + count_tag(s, "error"@) == s.len(),
    decreases s.len(),
{
    lemma_tags_distinct();
    if s.len() > 0 {
        assert forall|i: int| 0 <= i < s.drop_last().len() implies well_tagged(#[trigger] s.drop_last()[i]) by {
            assert(s.drop_last()[i] == s[i]);
        }
        lemma_summary_partitions(s.drop_last());
        assert(well_tagged(s[s.len() - 1]));
    }
}

/// Results made by `finished` and `error` are well tagged.
pub proof fn lemma_results_are_tagged(r: CaseResult)
    requires
        (exists|suite: Seq<char>, case: Seq<char>, level: Option<u8>, ms: Seq<MismatchView>| is_finished(r, suite, case, level, ms))
        || (exists|suite: Seq<char>, source: Seq<char>, message: Seq<char>| is_error(r, suite, source, message)),
    ensures
        well_tagged(r),
{
}

} // verus!
