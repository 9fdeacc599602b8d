use delta_inference::delta_f32::Patch;
use delta_inference::kv_delta::KvDelta;
use delta_inference::policy::ReusePolicy;
use delta_inference::state_types::{StateId, TensorView};

fn fraction_reached(total_len: usize, patch_count: usize, threshold: f32) -> bool {
    let unchanged_fraction = 1.0 - (patch_count as f32 / total_len as f32);
    unchanged_fraction >= threshold
}

fn default_policy() -> ReusePolicy<f32> {
    ReusePolicy { reuse_threshold: 0.95, max_patches_for_reuse: 1024, tolerance: 1e-6 }
}

#[test]
fn should_reuse_never_for_empty_buffers() {
    assert!(!default_policy().should_reuse(0, 0, fraction_reached));
}

#[test]
fn should_reuse_follows_fraction_and_cap() {
    let p = default_policy();
    assert!(p.should_reuse(100, 0, fraction_reached));
    assert!(p.should_reuse(100, 5, fraction_reached));
    assert!(!p.should_reuse(100, 6, fraction_reached));
    assert!(p.should_reuse(100_000, 1024, fraction_reached));
    assert!(!p.should_reuse(100_000, 1025, fraction_reached));
}

#[test]
fn kv_delta_collects_row_patches() {
    let id = StateId { layer: 2, head: Some(3), name: None };
    let mut kv: KvDelta<f32> = KvDelta::new(id.clone());
    assert!(kv.patches.is_empty());
    kv.add_row_patch(2, 3, 7, vec![Patch { index: 1, value: 0.5f32 }]);
    kv.add_row_patch(2, 4, 0, Vec::new());
    assert_eq!(kv.id, id);
    assert_eq!(kv.patches.len(), 2);
    assert_eq!((kv.patches[0].layer, kv.patches[0].head, kv.patches[0].row), (2, 3, 7));
    assert_eq!(kv.patches[0].values.len(), 1);
    assert_eq!(kv.patches[0].values[0].value, 0.5);
    assert_eq!((kv.patches[1].head, kv.patches[1].row), (4, 0));
    assert!(kv.patches[1].values.is_empty());
}

#[test]
fn tensor_view_length() {
    let data = [1.0f32, 2.0, 3.0];
    let view = TensorView { id: StateId { layer: 0, head: None, name: None }, shape: vec![3], data: &data };
    assert_eq!(view.len(), 3);
    assert!(!view.is_empty());
    let empty: [f32; 0] = [];
    let view = TensorView { id: StateId { layer: 0, head: None, name: None }, shape: vec![0], data: &empty };
    assert_eq!(view.len(), 0);
    assert!(view.is_empty());
}

#[test]
fn state_id_comparison_and_copy() {
    let a = StateId { layer: 1, head: Some(2), name: Some("k".to_string()) };
    let b = a.duplicate();
    assert!(a.same_as(&b));
    assert_eq!(a, b);
    assert!(!a.same_as(&StateId { layer: 1, head: Some(2), name: Some("v".to_string()) }));
    assert!(!a.same_as(&StateId { layer: 1, head: None, name: Some("k".to_string()) }));
    assert!(!a.same_as(&StateId { layer: 0, head: Some(2), name: Some("k".to_string()) }));
    assert!(!a.same_as(&StateId { layer: 1, head: Some(2), name: None }));
}

#[test]
fn should_reuse_is_monotone_on_examples() {
    let p = default_policy();
    // Reuse at (200, 10) carries over to fewer patches and to a longer buffer.
    assert!(p.should_reuse(200, 10, fraction_reached));
    assert!(p.should_reuse(200, 5, fraction_reached));
    assert!(p.should_reuse(400, 10, fraction_reached));
    assert!(!p.should_reuse(200, 11, fraction_reached));
}
