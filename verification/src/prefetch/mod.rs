//! Identifiers for the prediction strategies a cache can consult, and the
//! no-op baseline strategy. The predictors themselves are external
//! collaborators: a policy only calls them through `PrefetchStrategy` and
//! keeps every guarantee whatever they answer.

use vstd::prelude::*;
use crate::PrefetchStrategy;

verus! {

/// The set of prediction strategies callers can select.
#[derive(Debug, Clone, Copy, PartialEq, Eq, Structural, Hash)]
pub enum PrefetchType {
    Sequential,
    Markov,
    Stride,
    HistoryBased,
    Adaptive,
    Disabled,
}

impl PrefetchType {
    /// The display name of the strategy.
    pub fn name(&self) -> (r: &'static str)
        ensures
            *self == PrefetchType::Sequential ==> r@ == "Sequential"@,
            *self == PrefetchType::Markov ==> r@ == "Markov"@,
            *self == PrefetchType::Stride ==> r@ == "Stride"@,
            *self == PrefetchType::HistoryBased ==> r@ == "HistoryBased"@,
            *self == PrefetchType::Adaptive ==> r@ == "Adaptive"@,
            *self == PrefetchType::Disabled ==> r@ == "None"@,
    {
        match self {
            PrefetchType::Sequential => "Sequential",
            PrefetchType::Markov => "Markov",
            PrefetchType::Stride => "Stride",
            PrefetchType::HistoryBased => "HistoryBased",
            PrefetchType::Adaptive => "Adaptive",
            PrefetchType::Disabled => "None",
        }
    }

    /// A one-line behavioral description.
    pub fn description(&self) -> (r: &'static str)
        ensures
            *self == PrefetchType::Sequential ==> r@
                == "Predicts sequential access patterns with stride detection"@,
            *self == PrefetchType::Markov ==> r@ == "Predicts with Markov chain access patterns"@,
            *self == PrefetchType::Stride ==> r@
                == "Detects and predicts multiple stride patterns simultaneously"@,
            *self == PrefetchType::HistoryBased ==> r@
                == "Learns from historical access sequences (n-grams)"@,
            *self == PrefetchType::Adaptive ==> r@
                == "Dynamically combines multiple strategies with performance weighting"@,
            *self == PrefetchType::Disabled ==> r@ == "No prefetching - baseline strategy"@,
    {
        match self {
            PrefetchType::Sequential => "Predicts sequential access patterns with stride detection",
            PrefetchType::Markov => "Predicts with Markov chain access patterns",
            PrefetchType::Stride => "Detects and predicts multiple stride patterns simultaneously",
            PrefetchType::HistoryBased => "Learns from historical access sequences (n-grams)",
            PrefetchType::Adaptive => "Dynamically combines multiple strategies with performance weighting",
            PrefetchType::Disabled => "No prefetching - baseline strategy",
        }
    }

    /// Every strategy identifier, in a fixed order.
    pub fn all() -> (r: Vec<PrefetchType>)
        ensures
            r@ == seq![
                PrefetchType::Sequential,
                PrefetchType::Markov,
                PrefetchType::Stride,
                PrefetchType::HistoryBased,
                PrefetchType::Adaptive,
                PrefetchType::Disabled,
            ],
    {
        let r = vec![
            PrefetchType::Sequential,
            PrefetchType::Markov,
            PrefetchType::Stride,
            PrefetchType::HistoryBased,
            PrefetchType::Adaptive,
            PrefetchType::Disabled,
        ];
        proof {
            assert(r@ =~= seq![
                PrefetchType::Sequential,
                PrefetchType::Markov,
                PrefetchType::Stride,
                PrefetchType::HistoryBased,
                PrefetchType::Adaptive,
                PrefetchType::Disabled,
            ]);
        }
        r
    }
}

/// The baseline strategy: it never predicts anything and keeps no state.
#[derive(Debug, Clone, Copy, PartialEq, Eq, Structural, Default)]
pub struct NoPrefetch;

impl<K> PrefetchStrategy<K> for NoPrefetch {
    /// Predicts nothing.
    fn predict_next(&mut self, _accessed_key: &K) -> (r: Vec<K>)
        ensures
            r@.len() == 0,
    {
        Vec::new()
    }

    fn update_access_pattern(&mut self, _key: &K) {
    }

    fn reset(&mut self) {
    }
}

} // verus!
