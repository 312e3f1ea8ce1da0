//! Risk grading of vulnerable functions by how often they are called.
use vstd::prelude::*;

verus! {

#[derive(Debug, Clone, Copy, PartialEq, Eq, Structural)]
pub enum RiskLevel {
    Critical,
    High,
    Medium,
    Low,
}

/// How one vulnerable function is used across the analyzed packages.
#[derive(Debug)]
pub struct FunctionAnalysis {
    pub function_name: String,
    pub call_frequency: usize,
    pub propagation_depth: usize,
    pub critical_usage_contexts: Vec<String>,
    pub risk_assessment: RiskLevel,
}

/// A recurring way of using a vulnerable function.
#[derive(Debug)]
pub struct UsagePattern {
    pub pattern_name: String,
    pub frequency: usize,
    pub risk_level: RiskLevel,
    pub typical_contexts: Vec<String>,
}

/// Up to 10 calls is low risk, up to 50 medium, up to 100 high, beyond that
/// critical.
pub fn assess_function_risk(call_frequency: usize) -> (r: RiskLevel)
    ensures
        call_frequency <= 10 ==> r == RiskLevel::Low,
        10 < call_frequency <= 50 ==> r == RiskLevel::Medium,
        50 < call_frequency <= 100 ==> r == RiskLevel::High,
        100 < call_frequency ==> r == RiskLevel::Critical,
{
    if call_frequency <= 10 {
        RiskLevel::Low
    } else if call_frequency <= 50 {
        RiskLevel::Medium
    } else if call_frequency <= 100 {
        RiskLevel::High
    } else {
        RiskLevel::Critical
    }
}

} // verus!
