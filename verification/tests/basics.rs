use codeatlas::parser::Language;
use codeatlas::query::compute_risk;

#[test]
fn from_extension_known() {
    assert_eq!(Language::from_extension("rb"), Some(Language::Ruby));
    assert_eq!(Language::from_extension("go"), Some(Language::Go));
    assert_eq!(Language::from_extension("ts"), Some(Language::TypeScript));
    assert_eq!(Language::from_extension("tsx"), Some(Language::TypeScript));
    assert_eq!(Language::from_extension("js"), Some(Language::TypeScript));
    assert_eq!(Language::from_extension("jsx"), Some(Language::TypeScript));
}

#[test]
fn from_extension_unknown() {
    assert_eq!(Language::from_extension("py"), None);
    assert_eq!(Language::from_extension("rs"), None);
    assert_eq!(Language::from_extension(""), None);
}

#[test]
fn compute_risk_boundaries() {
    // low: depth_1_count == 0 and total < 10
    assert_eq!(compute_risk(false, 0, 0), "low");
    assert_eq!(compute_risk(false, 9, 0), "low");
    // medium: depth_1_count > 0 without a high condition
    assert_eq!(compute_risk(false, 1, 1), "medium");
    assert_eq!(compute_risk(false, 9, 1), "medium");
    // high: total_affected == 10 (boundary, even with depth_1_count == 0)
    assert_eq!(compute_risk(false, 10, 0), "high");
    assert_eq!(compute_risk(false, 11, 0), "high");
    // high: has_exported_at_d1 (even with few affected)
    assert_eq!(compute_risk(true, 1, 1), "high");
    assert_eq!(compute_risk(true, 0, 0), "high");
}

#[test]
fn vector_blob_roundtrip() {
    let values = vec![1.5f32, -2.0, 0.333];
    let blob: Vec<u8> = values.iter().flat_map(|f| f.to_le_bytes()).collect();
    let restored: Vec<f32> = blob
        .chunks_exact(4)
        .map(|b| f32::from_le_bytes([b[0], b[1], b[2], b[3]]))
        .collect();
    for (a, b) in values.iter().zip(restored.iter()) {
        assert!((a - b).abs() < 1e-9);
    }
}
