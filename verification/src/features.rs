//! Runtime- and instance-level feature toggles, and the read-only view
//! through which the search service checks that an experimental feature is
//! enabled before acting on it.

use vstd::prelude::*;

verus! {

/// Features toggled when the instance is started.
#[derive(Debug, Clone, Copy, PartialEq, Eq, Structural)]
pub struct InstanceTogglableFeatures {
    pub metrics: bool,
}

/// Features that can be toggled at runtime and persisted by the scheduler.
#[derive(Debug, Clone, Copy, PartialEq, Eq, Structural)]
pub struct RuntimeTogglableFeatures {
    pub score_details: bool,
    pub vector_search: bool,
}

impl Default for InstanceTogglableFeatures {
    fn default() -> (r: Self)
        ensures
            !r.metrics,
    {
        InstanceTogglableFeatures { metrics: false }
    }
}

impl Default for RuntimeTogglableFeatures {
    fn default() -> (r: Self)
        ensures
            !r.score_details,
            !r.vector_search,
    {
        RuntimeTogglableFeatures { score_details: false, vector_search: false }
    }
}

/// Error returned when an action needs a feature that is not enabled.
#[derive(Debug, Clone, Copy)]
pub struct FeatureNotEnabledError {
    pub disabled_action: &'static str,
    pub feature: &'static str,
    pub issue_link: &'static str,
}

/// A read-only snapshot of every feature toggle, taken once per request.
#[derive(Debug, Clone, Copy)]
pub struct RoFeatures {
    pub runtime: RuntimeTogglableFeatures,
    pub instance: InstanceTogglableFeatures,
}

impl RoFeatures {
    pub fn new(runtime: RuntimeTogglableFeatures, instance: InstanceTogglableFeatures) -> (r: Self)
        ensures
            r.runtime == runtime,
            r.instance == instance,
    {
        RoFeatures { runtime, instance }
    }

    pub fn runtime_features(&self) -> (r: RuntimeTogglableFeatures)
        ensures
            r == self.runtime,
    {
        self.runtime
    }

    /// Succeeds exactly when the score-details feature is enabled.
    pub fn check_score_details(&self) -> (r: Result<(), FeatureNotEnabledError>)
        ensures
            r is Ok <==> self.runtime.score_details,
            r matches Err(e) ==> e.feature@ == "score details"@,
    {
        if self.runtime.score_details {
            Ok(())
        } else {
            Err(FeatureNotEnabledError {
                disabled_action: "Computing score details",
                feature: "score details",
                issue_link: "https://github.com/meilisearch/product/discussions/674",
            })
        }
    }

    /// Succeeds exactly when metrics were enabled for this instance.
    pub fn check_metrics(&self) -> (r: Result<(), FeatureNotEnabledError>)
        ensures
            r is Ok <==> self.instance.metrics,
            r matches Err(e) ==> e.feature@ == "metrics"@,
    {
        if self.instance.metrics {
            Ok(())
        } else {
            Err(FeatureNotEnabledError {
                disabled_action: "Getting metrics",
                feature: "metrics",
                issue_link: "https://github.com/meilisearch/meilisearch/discussions/3518",
            })
        }
    }

    /// Succeeds exactly when the vector-search feature is enabled.
    pub fn check_vector(&self) -> (r: Result<(), FeatureNotEnabledError>)
        ensures
            r is Ok <==> self.runtime.vector_search,
            r matches Err(e) ==> e.feature@ == "semantic search"@,
    {
        if self.runtime.vector_search {
            Ok(())
        } else {
            Err(FeatureNotEnabledError {
                disabled_action: "Using semantic search",
                feature: "semantic search",
                issue_link: "https://github.com/meilisearch/product/discussions/677",
            })
        }
    }
}

} // verus!
