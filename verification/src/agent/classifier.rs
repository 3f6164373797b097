use std::collections::HashMap;

use vstd::prelude::*;

verus! {

/// Problem domain of a task.
#[derive(Debug, Clone, Copy, PartialEq, Eq, Structural)]
pub enum TaskDomain {
    Simulation,
    Optimization,
    Verification,
    ErrorCorrection,
    ResourceEstimation,
}

/// A task submitted to the orchestration layer.
#[derive(Debug, Clone)]
pub struct TaskSpec {
    pub description: String,
    pub domain: Option<TaskDomain>,
    pub circuit_json: Option<String>,
    pub parameters: HashMap<String, String>,
}

/// Rules-based keyword classifier.
pub struct WorkloadClassifier;

/// `pat` occurs in `s` as a contiguous piece.
pub open spec fn has_substring(s: Seq<char>, pat: Seq<char>) -> bool {
    exists|i: int| 0 <= i && i + pat.len() <= s.len() && #[trigger] s.subrange(i, i + pat.len()) == pat
}

/// Domain of a lower-cased description: the first keyword group that occurs
/// wins, simulation when none does.
pub open spec fn spec_classify(d: Seq<char>) -> TaskDomain {
    if has_substring(d, "simulate"@) || has_substring(d, "run"@) || has_substring(d, "execute"@) {
        TaskDomain::Simulation
    } else if has_substring(d, "optimize"@) || has_substring(d, "reduce"@) || has_substring(d, "minimize"@) {
        TaskDomain::Optimization
    } else if has_substring(d, "verify"@) || has_substring(d, "prove"@) || has_substring(d, "check"@) {
        TaskDomain::Verification
    } else if has_substring(d, "error"@) || has_substring(d, "correct"@) || has_substring(d, "surface"@)
        || has_substring(d, "qec"@) {
        TaskDomain::ErrorCorrection
    } else if has_substring(d, "resource"@) || has_substring(d, "estimate"@) || has_substring(d, "cost"@) {
        TaskDomain::ResourceEstimation
    } else {
        TaskDomain::Simulation
    }
}

/// The lower-case form of a string, as `str::to_lowercase` computes it.
pub uninterp spec fn spec_lowercase(s: Seq<char>) -> Seq<char>;

/// Calls `str::to_lowercase`, which maps every character to its Unicode
/// lower-case form; its result is named, not described.
#[verifier::external_body]
fn lowercase(s: &str) -> (r: String)
    ensures
        r@ == spec_lowercase(s@),
{
    s.to_lowercase()
}

/// Whether `pat` occurs in `s`.
pub fn contains_text(s: &str, pat: &str) -> (b: bool)
    ensures
        b == has_substring(s@, pat@),
{
    let n = s.unicode_len();
    let m = pat.unicode_len();
    if m > n {
        proof {
            assert forall|i: int| 0 <= i && i + pat@.len() <= s@.len() implies #[trigger] s@.subrange(i, i + pat@.len()) != pat@ by {}
        }
        return false;
    }
    let mut i: usize = 0;
    while i <= n - m
        invariant
            n == s@.len(),
            m == pat@.len(),
            m <= n,
            i <= n - m + 1,
            forall|k: int| 0 <= k < i ==> #[trigger] s@.subrange(k, k + m) != pat@,
        decreases n - m + 1 - i,
    {
        let mut j: usize = 0;
        let mut same = true;
        while j < m
            invariant
                n == s@.len(),
                m == pat@.len(),
                i + m <= n,
                j <= m,
                same == (forall|k: int| 0 <= k < j ==> s@[i + k] == pat@[k]),
            decreases m - j,
        {
            if s.get_char(i + j) != pat.get_char(j) {
                same = false;
            }
            j += 1;
        }
        if same {
            assert(s@.subrange(i as int, i + m) =~= pat@);
            return true;
        }
        assert(s@.subrange(i as int, i + m) != pat@) by {
            let k = choose|k: int| 0 <= k < m && s@[i + k] != pat@[k];
            assert(s@.subrange(i as int, i + m)[k] == s@[i + k]);
        }
        i += 1;
    }
    false
}

/// Domain of an already lower-cased description.
pub fn classify_description(desc: &str) -> (d: TaskDomain)
    ensures
        d == spec_classify(desc@),
{
    if contains_text(desc, "simulate") || contains_text(desc, "run") || contains_text(desc, "execute") {
        TaskDomain::Simulation
    } else if contains_text(desc, "optimize") || contains_text(desc, "reduce") || contains_text(desc, "minimize") {
        TaskDomain::Optimization
    } else if contains_text(desc, "verify") || contains_text(desc, "prove") || contains_text(desc, "check") {
        TaskDomain::Verification
    } else if contains_text(desc, "error") || contains_text(desc, "correct") || contains_text(desc, "surface")
        || contains_text(desc, "qec") {
        TaskDomain::ErrorCorrection
    } else if contains_text(desc, "resource") || contains_text(desc, "estimate") || contains_text(desc, "cost") {
        TaskDomain::ResourceEstimation
    } else {
        TaskDomain::Simulation
    }
}

impl WorkloadClassifier {
    /// A classifier.
    pub fn new() -> (c: Self)
        ensures
            c == WorkloadClassifier,
    {
        WorkloadClassifier
    }

    /// The task's explicit domain if it has one, otherwise the domain of its
    /// lower-cased description.
    pub fn classify(&self, task: &TaskSpec) -> (d: TaskDomain)
        ensures
            d == match task.domain {
                Some(explicit) => explicit,
                None => spec_classify(spec_lowercase(task.description@)),
            },
    {
        if let Some(domain) = task.domain {
            return domain;
        }
        let desc = lowercase(task.description.as_str());
        classify_description(desc.as_str())
    }
}

impl Default for WorkloadClassifier {
    fn default() -> (c: Self)
        ensures
            c == WorkloadClassifier,
    {
        WorkloadClassifier::new()
    }
}

/// None of the simulation keywords occurs in `d`.
pub open spec fn no_simulation_keyword(d: Seq<char>) -> bool {
    !has_substring(d, "simulate"@) && !has_substring(d, "run"@) && !has_substring(d, "execute"@)
}

/// None of the optimization keywords occurs in `d`.
pub open spec fn no_optimization_keyword(d: Seq<char>) -> bool {
    !has_substring(d, "optimize"@) && !has_substring(d, "reduce"@) && !has_substring(d, "minimize"@)
}

/// None of the verification keywords occurs in `d`.
pub open spec fn no_verification_keyword(d: Seq<char>) -> bool {
    !has_substring(d, "verify"@) && !has_substring(d, "prove"@) && !has_substring(d, "check"@)
}

/// None of the error-correction keywords occurs in `d`.
pub open spec fn no_error_correction_keyword(d: Seq<char>) -> bool {
    !has_substring(d, "error"@) && !has_substring(d, "correct"@) && !has_substring(d, "surface"@) && !has_substring(
        d,
        "qec"@,
    )
}

/// Each keyword decides its domain unless a keyword of an earlier group
/// (simulation, optimization, verification, error correction, resource
/// estimation) occurs too; a description with no keyword is a simulation.
pub proof fn lemma_classify_keywords(d: Seq<char>)
    ensures
        has_substring(d, "simulate"@) ==> spec_classify(d) == TaskDomain::Simulation,
        has_substring(d, "run"@) ==> spec_classify(d) == TaskDomain::Simulation,
        has_substring(d, "execute"@) ==> spec_classify(d) == TaskDomain::Simulation,
        no_simulation_keyword(d) && has_substring(d, "optimize"@) ==> spec_classify(d) == TaskDomain::Optimization,
        no_simulation_keyword(d) && has_substring(d, "reduce"@) ==> spec_classify(d) == TaskDomain::Optimization,
        no_simulation_keyword(d) && has_substring(d, "minimize"@) ==> spec_classify(d) == TaskDomain::Optimization,
        no_simulation_keyword(d) && no_optimization_keyword(d) && has_substring(d, "verify"@) ==> spec_classify(d)
            == TaskDomain::Verification,
        no_simulation_keyword(d) && no_optimization_keyword(d) && has_substring(d, "prove"@) ==> spec_classify(d)
            == TaskDomain::Verification,
        no_simulation_keyword(d) && no_optimization_keyword(d) && has_substring(d, "check"@) ==> spec_classify(d)
            == TaskDomain::Verification,
        no_simulation_keyword(d) && no_optimization_keyword(d) && no_verification_keyword(d) && has_substring(
            d,
            "error"@,
        ) ==> spec_classify(d) == TaskDomain::ErrorCorrection,
        no_simulation_keyword(d) && no_optimization_keyword(d) && no_verification_keyword(d) && has_substring(
            d,
            "correct"@,
        ) ==> spec_classify(d) == TaskDomain::ErrorCorrection,
        no_simulation_keyword(d) && no_optimization_keyword(d) && no_verification_keyword(d) && has_substring(
            d,
            "surface"@,
        ) ==> spec_classify(d) == TaskDomain::ErrorCorrection,
        no_simulation_keyword(d) && no_optimization_keyword(d) && no_verification_keyword(d) && has_substring(
            d,
            "qec"@,
        ) ==> spec_classify(d) == TaskDomain::ErrorCorrection,
        no_simulation_keyword(d) && no_optimization_keyword(d) && no_verification_keyword(d)
            && no_error_correction_keyword(d) && has_substring(d, "resource"@) ==> spec_classify(d)
            == TaskDomain::ResourceEstimation,
        no_simulation_keyword(d) && no_optimization_keyword(d) && no_verification_keyword(d)
            && no_error_correction_keyword(d) && has_substring(d, "estimate"@) ==> spec_classify(d)
            == TaskDomain::ResourceEstimation,
        no_simulation_keyword(d) && no_optimization_keyword(d) && no_verification_keyword(d)
            && no_error_correction_keyword(d) && has_substring(d, "cost"@) ==> spec_classify(d)
            == TaskDomain::ResourceEstimation,
        no_simulation_keyword(d) && no_optimization_keyword(d) && no_verification_keyword(d)
            && no_error_correction_keyword(d) && !has_substring(d, "resource"@) && !has_substring(d, "estimate"@)
            && !has_substring(d, "cost"@) ==> spec_classify(d) == TaskDomain::Simulation,
{
}

/// The keyword search finds a keyword wherever it stands in the text: a
/// text that has `pat` between a prefix and a suffix contains it.
pub proof fn lemma_substring_anywhere(pre: Seq<char>, pat: Seq<char>, post: Seq<char>)
    ensures
        has_substring(pre + pat + post, pat),
{
    let s = pre + pat + post;
    assert(s.subrange(pre.len() as int, (pre.len() + pat.len()) as int) =~= pat);
}

} // verus!
