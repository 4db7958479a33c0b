//! The partial feature-toggle update accepted by the settings route: each
//! field may be left out, in which case the stored value is kept.

use vstd::prelude::*;

use crate::features;

verus! {

/// A partial update of the runtime feature toggles.
#[derive(Debug, Clone, Copy, PartialEq, Eq, Structural)]
pub struct RuntimeTogglableFeatures {
    pub score_details: Option<bool>,
    pub vector_search: Option<bool>,
}

impl RuntimeTogglableFeatures {
    /// The toggles that result from applying this update on top of `old`:
    /// a field that the update leaves out keeps its old value.
    pub fn merged(&self, old_features: features::RuntimeTogglableFeatures) -> (r:
        features::RuntimeTogglableFeatures)
        ensures
            r.score_details == if self.score_details is Some {
                self.score_details->0
            } else {
                old_features.score_details
            },
            r.vector_search == if self.vector_search is Some {
                self.vector_search->0
            } else {
                old_features.vector_search
            },
    {
        features::RuntimeTogglableFeatures {
            score_details: match self.score_details {
                Some(b) => b,
                None => old_features.score_details,
            },
            vector_search: match self.vector_search {
                Some(b) => b,
                None => old_features.vector_search,
            },
        }
    }
}

} // verus!
