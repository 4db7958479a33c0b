use ranked_search::features::{InstanceTogglableFeatures, RoFeatures, RuntimeTogglableFeatures};
use ranked_search::features_update;

#[test]
fn checks_follow_the_toggles() {
    let features = RoFeatures::new(
        RuntimeTogglableFeatures { score_details: true, vector_search: false },
        InstanceTogglableFeatures { metrics: false },
    );
    assert!(features.check_score_details().is_ok());
    assert!(features.check_vector().is_err());
    assert!(features.check_metrics().is_err());
    let err = features.check_vector().unwrap_err();
    assert_eq!(err.feature, "semantic search");
    let err = features.check_metrics().unwrap_err();
    assert_eq!(err.feature, "metrics");

    let all_on = RoFeatures::new(
        RuntimeTogglableFeatures { score_details: true, vector_search: true },
        InstanceTogglableFeatures { metrics: true },
    );
    assert!(all_on.check_score_details().is_ok());
    assert!(all_on.check_vector().is_ok());
    assert!(all_on.check_metrics().is_ok());
    assert_eq!(all_on.runtime_features().vector_search, true);
}

#[test]
fn default_toggles_are_off() {
    let runtime = RuntimeTogglableFeatures::default();
    assert!(!runtime.score_details && !runtime.vector_search);
    let instance = InstanceTogglableFeatures::default();
    assert!(!instance.metrics);
}

// A partial update keeps whatever it leaves out.
#[test]
fn merged_patch_keeps_old_values() {
    let old = RuntimeTogglableFeatures { score_details: true, vector_search: false };
    let patch = features_update::RuntimeTogglableFeatures {
        score_details: None,
        vector_search: Some(true),
    };
    let merged = patch.merged(old);
    assert!(merged.score_details);
    assert!(merged.vector_search);

    let keep_all = features_update::RuntimeTogglableFeatures {
        score_details: None,
        vector_search: None,
    };
    let kept = keep_all.merged(old);
    assert_eq!(kept, old);
}
