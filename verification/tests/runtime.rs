use delta_inference::delta_f32::{Delta, DeltaError, Patch};
use delta_inference::runtime::{DeltaRuntime, RuntimeError};
use delta_inference::policy::ReusePolicy;
use delta_inference::state_types::StateId;

fn exceeds(m: f32, v: f32, tolerance: f32) -> bool {
    (m - v).abs() > tolerance
}

fn policy() -> ReusePolicy<f32> {
    ReusePolicy { reuse_threshold: 0.95, max_patches_for_reuse: 1024, tolerance: 1e-6 }
}

fn id(layer: usize, head: Option<usize>, name: &str) -> StateId {
    StateId { layer, head, name: Some(name.to_string()) }
}

#[test]
fn runtime_round_trip() {
    let mut rt = DeltaRuntime::new(policy());
    let a = id(0, Some(1), "kv");
    let master = vec![0.0f32, 1.0, 2.0, 3.0, 4.0];
    let mut variant = master.clone();
    variant[2] = 2.75;
    rt.register_master(&a, master.clone());
    assert_eq!(rt.master(&a), Some(&master));
    let delta = rt.compute_delta_for(&a, &variant, exceeds).unwrap();
    assert_eq!(delta.id, a);
    assert_eq!(delta.original_len, 5);
    assert_eq!(delta.patches.len(), 1);
    assert_eq!(delta.patches[0].index, 2);
    let out = rt.apply_delta_for(&a, &delta).unwrap();
    assert_eq!(out, variant);
}

#[test]
fn runtime_uses_the_policy_tolerance() {
    let mut p = policy();
    p.tolerance = 0.5;
    let mut rt = DeltaRuntime::new(p);
    let a = id(0, None, "kv");
    rt.register_master(&a, vec![1.0f32, 2.0, 3.0]);
    let delta = rt.compute_delta_for(&a, &[1.25f32, 3.0, 3.0], exceeds).unwrap();
    let got: Vec<usize> = delta.patches.iter().map(|q| q.index).collect();
    assert_eq!(got, vec![1]);
    assert_eq!(rt.policy().tolerance, 0.5);
}

#[test]
fn runtime_reports_missing_master() {
    let mut rt = DeltaRuntime::new(policy());
    let a = id(0, None, "a");
    let b = id(0, None, "b");
    rt.register_master(&a, vec![1.0f32]);
    assert!(matches!(rt.compute_delta_for(&b, &[1.0f32], exceeds), Err(RuntimeError::MasterNotFound)));
    let delta = Delta { id: b.clone(), original_len: 1, patches: Vec::new() };
    assert!(matches!(rt.apply_delta_for(&b, &delta), Err(RuntimeError::MasterNotFound)));
    assert_eq!(rt.master(&b), None);
}

#[test]
fn runtime_keeps_masters_apart_and_replaces_on_register() {
    let mut rt = DeltaRuntime::new(policy());
    let a = id(0, Some(0), "x");
    let b = id(0, Some(1), "x");
    let c = StateId { layer: 0, head: Some(0), name: None };
    rt.register_master(&a, vec![1.0f32, 1.0]);
    rt.register_master(&b, vec![2.0f32, 2.0]);
    rt.register_master(&c, vec![3.0f32]);
    assert_eq!(rt.master(&a), Some(&vec![1.0f32, 1.0]));
    assert_eq!(rt.master(&b), Some(&vec![2.0f32, 2.0]));
    assert_eq!(rt.master(&c), Some(&vec![3.0f32]));
    rt.register_master(&a, vec![9.0f32, 9.0, 9.0]);
    assert_eq!(rt.master(&a), Some(&vec![9.0f32, 9.0, 9.0]));
    assert_eq!(rt.master(&b), Some(&vec![2.0f32, 2.0]));
}

#[test]
fn runtime_passes_delta_errors_on() {
    let mut rt = DeltaRuntime::new(policy());
    let a = id(3, None, "m");
    rt.register_master(&a, vec![1.0f32, 2.0]);
    match rt.compute_delta_for(&a, &[1.0f32], exceeds) {
        Err(RuntimeError::Delta(DeltaError::LengthMismatch { expected, got })) => {
            assert_eq!((expected, got), (2, 1));
        }
        other => panic!("unexpected result {:?}", other),
    }
    let bad = Delta { id: a.clone(), original_len: 2, patches: vec![Patch { index: 5, value: 0.0f32 }] };
    match rt.apply_delta_for(&a, &bad) {
        Err(RuntimeError::Delta(DeltaError::Internal(msg))) => assert_eq!(msg, "patch index 5 out of bounds"),
        other => panic!("unexpected result {:?}", other),
    }
}

#[test]
fn runtime_counts_and_removes_masters() {
    let mut rt = DeltaRuntime::new(policy());
    assert_eq!(rt.master_count(), 0);
    let a = id(0, None, "a");
    let b = id(1, None, "b");
    rt.register_master(&a, vec![1.0f32, 2.0]);
    rt.register_master(&b, vec![3.0f32]);
    assert_eq!(rt.master_count(), 2);
    rt.register_master(&a, vec![4.0f32]);
    assert_eq!(rt.master_count(), 2);
    assert_eq!(rt.remove_master(&a), Some(vec![4.0f32]));
    assert_eq!(rt.master_count(), 1);
    assert_eq!(rt.master(&a), None);
    assert_eq!(rt.master(&b), Some(&vec![3.0f32]));
    assert_eq!(rt.remove_master(&a), None);
    assert_eq!(rt.master_count(), 1);
    assert!(matches!(rt.compute_delta_for(&a, &[4.0f32], exceeds), Err(RuntimeError::MasterNotFound)));
}

#[test]
fn runtime_policy_can_be_replaced() {
    let mut rt = DeltaRuntime::new(policy());
    let a = id(0, None, "a");
    rt.register_master(&a, vec![1.0f32, 2.0]);
    let mut p = policy();
    p.tolerance = 2.0;
    p.max_patches_for_reuse = 7;
    rt.set_policy(p);
    assert_eq!(rt.policy().tolerance, 2.0);
    assert_eq!(rt.policy().max_patches_for_reuse, 7);
    assert_eq!(rt.master(&a), Some(&vec![1.0f32, 2.0]));
    // Differences of 1.5 are now within the tolerance.
    let delta = rt.compute_delta_for(&a, &[2.5f32, 0.5], exceeds).unwrap();
    assert!(delta.patches.is_empty());
}

#[test]
fn runtime_agrees_with_direct_computation() {
    let mut rt = DeltaRuntime::new(policy());
    let a = id(2, Some(3), "kv");
    let master = vec![0.0f32, 1.0, 2.0, 3.0];
    let variant = vec![0.0f32, 1.5, 2.0, -3.0];
    rt.register_master(&a, master.clone());
    let via = rt.compute_delta_for(&a, &variant, exceeds).unwrap();
    let direct = delta_inference::delta_f32::compute_delta_f32(a.clone(), &master, &variant, 1e-6, exceeds).unwrap();
    let v: Vec<(usize, f32)> = via.patches.iter().map(|p| (p.index, p.value)).collect();
    let d: Vec<(usize, f32)> = direct.patches.iter().map(|p| (p.index, p.value)).collect();
    assert_eq!(v, d);
    assert_eq!(via.id, direct.id);
    assert_eq!(via.original_len, direct.original_len);
}
