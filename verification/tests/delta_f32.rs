use delta_inference::delta_f32::{
    apply_delta_f32, compute_delta_f32, delta_from_verdicts, Delta, DeltaError, Patch,
};
use delta_inference::state_types::StateId;

/// The element test of `f32` tensors: the absolute difference exceeds the tolerance.
fn exceeds(m: f32, v: f32, tolerance: f32) -> bool {
    (m - v).abs() > tolerance
}

fn id_t() -> StateId {
    StateId { layer: 0, head: None, name: Some("t".into()) }
}

#[test]
fn test_compute_apply_small() {
    let id = StateId { layer: 0, head: None, name: Some("t".into()) };
    let master = vec![0.0f32, 1.0, 2.0, 3.0];
    let mut variant = master.clone();
    variant[2] = 2.5;
    let delta = compute_delta_f32(id.clone(), &master, &variant, 1e-6, exceeds).expect("compute");
    assert_eq!(delta.patches.len(), 1);
    let out = apply_delta_f32(&master, &delta).expect("apply");
    assert_eq!(out, variant);
}

#[test]
fn compute_records_changed_elements_in_order() {
    let master = vec![0.0f32, 1.0, 2.0, 3.0, 4.0];
    let variant = vec![0.5f32, 1.0, 2.75, 3.0, -4.0];
    let delta = compute_delta_f32(id_t(), &master, &variant, 1e-6, exceeds).unwrap();
    assert_eq!(delta.id, id_t());
    assert_eq!(delta.original_len, 5);
    let got: Vec<(usize, f32)> = delta.patches.iter().map(|p| (p.index, p.value)).collect();
    assert_eq!(got, vec![(0, 0.5), (2, 2.75), (4, -4.0)]);
}

#[test]
fn compute_of_equal_buffers_is_empty() {
    let master = vec![1.0f32, 2.0, 3.0];
    let delta = compute_delta_f32(id_t(), &master, &master, 1e-6, exceeds).unwrap();
    assert!(delta.patches.is_empty());
    assert_eq!(delta.original_len, 3);
}

#[test]
fn compute_ignores_differences_within_tolerance() {
    let master = vec![1.0f32, 2.0, 3.0];
    let variant = vec![1.25f32, 2.5, 3.0];
    // 0.25 is within the tolerance, 0.5 exceeds it; a difference equal to the
    // tolerance is not a change.
    let delta = compute_delta_f32(id_t(), &master, &variant, 0.25, exceeds).unwrap();
    let got: Vec<usize> = delta.patches.iter().map(|p| p.index).collect();
    assert_eq!(got, vec![1]);
    // Applying keeps the master's value where the difference was tolerated.
    let out = apply_delta_f32(&master, &delta).unwrap();
    assert_eq!(out, vec![1.0f32, 2.5, 3.0]);
}

#[test]
fn compute_rejects_length_mismatch() {
    let master = vec![1.0f32, 2.0, 3.0];
    let variant = vec![1.0f32, 2.0];
    match compute_delta_f32(id_t(), &master, &variant, 1e-6, exceeds) {
        Err(DeltaError::LengthMismatch { expected, got }) => {
            assert_eq!(expected, 3);
            assert_eq!(got, 2);
        }
        other => panic!("unexpected result {:?}", other),
    }
}

#[test]
fn compute_of_empty_buffers() {
    let empty: Vec<f32> = Vec::new();
    let delta = compute_delta_f32(id_t(), &empty, &empty, 1e-6, exceeds).unwrap();
    assert_eq!(delta.original_len, 0);
    assert!(delta.patches.is_empty());
    assert_eq!(apply_delta_f32(&empty, &delta).unwrap(), empty);
}

#[test]
fn apply_rejects_length_mismatch() {
    let master = vec![1.0f32, 2.0, 3.0];
    let delta = Delta { id: id_t(), original_len: 4, patches: vec![Patch { index: 0, value: 9.0f32 }] };
    match apply_delta_f32(&master, &delta) {
        Err(DeltaError::LengthMismatch { expected, got }) => {
            assert_eq!(expected, 3);
            assert_eq!(got, 4);
        }
        other => panic!("unexpected result {:?}", other),
    }
}

#[test]
fn apply_rejects_out_of_bounds_patch() {
    let master = vec![1.0f32, 2.0, 3.0];
    let delta = Delta {
        id: id_t(),
        original_len: 3,
        patches: vec![
            Patch { index: 1, value: 7.0f32 },
            Patch { index: 12, value: 8.0 },
            Patch { index: 30, value: 9.0 },
        ],
    };
    match apply_delta_f32(&master, &delta) {
        Err(DeltaError::Internal(msg)) => assert_eq!(msg, "patch index 12 out of bounds"),
        other => panic!("unexpected result {:?}", other),
    }
}

#[test]
fn apply_writes_patches_in_order() {
    let master = vec![1.0f32, 2.0, 3.0];
    let delta = Delta {
        id: id_t(),
        original_len: 3,
        patches: vec![
            Patch { index: 2, value: 7.0f32 },
            Patch { index: 0, value: 5.0 },
            Patch { index: 2, value: 8.0 },
        ],
    };
    let out = apply_delta_f32(&master, &delta).unwrap();
    assert_eq!(out, vec![5.0f32, 2.0, 8.0]);
    // The master is left as it was.
    assert_eq!(master, vec![1.0f32, 2.0, 3.0]);
}

#[test]
fn apply_of_empty_delta_copies_master() {
    let master = vec![1.0f32, 2.0, 3.0];
    let delta: Delta<f32> = Delta { id: id_t(), original_len: 3, patches: Vec::new() };
    assert_eq!(apply_delta_f32(&master, &delta).unwrap(), master);
}

#[test]
fn round_trip_on_a_kv_like_tensor() {
    let rows = 32usize;
    let row_len = 8usize;
    let mut master = vec![0.0f32; rows * row_len];
    for r in 0..rows {
        for j in 0..row_len {
            master[r * row_len + j] = ((r + j) % 256) as f32;
        }
    }
    let mut variant = master.clone();
    for r in (0..rows).step_by(4) {
        let idx = r * row_len + (r % row_len);
        variant[idx] = variant[idx] + 1.0;
    }
    let delta = compute_delta_f32(id_t(), &master, &variant, 1e-6, exceeds).unwrap();
    assert_eq!(delta.patches.len(), 8);
    assert_eq!(apply_delta_f32(&master, &delta).unwrap(), variant);
}

#[test]
fn works_on_integer_elements() {
    let master = vec![3u32, 4, 5];
    let variant = vec![3u32, 40, 5];
    let delta = compute_delta_f32(id_t(), &master, &variant, 0, |m: u32, v: u32, _t: u32| m != v).unwrap();
    assert_eq!(delta.patches.len(), 1);
    assert_eq!(delta.patches[0].index, 1);
    assert_eq!(delta.patches[0].value, 40);
    assert_eq!(apply_delta_f32(&master, &delta).unwrap(), variant);
}

#[test]
fn delta_from_verdicts_selects_flagged_elements() {
    let master = vec![1.0f32, 2.0, 3.0, 4.0];
    let variant = vec![1.0f32, 9.0, 3.0, 8.0];
    let delta = delta_from_verdicts(id_t(), &master, &variant, &[false, true, false, true]).unwrap();
    let got: Vec<(usize, f32)> = delta.patches.iter().map(|p| (p.index, p.value)).collect();
    assert_eq!(got, vec![(1, 9.0), (3, 8.0)]);
    assert_eq!(delta.original_len, 4);
    match delta_from_verdicts(id_t(), &master, &variant[..3], &[]) {
        Err(DeltaError::LengthMismatch { expected, got }) => assert_eq!((expected, got), (4, 3)),
        other => panic!("unexpected result {:?}", other),
    }
}

#[test]
fn raising_tolerance_only_removes_patches() {
    let master = vec![0.0f32, 1.0, 2.0, 3.0, 4.0];
    let variant = vec![0.1f32, 1.5, 2.0, 5.0, 4.01];
    let low = compute_delta_f32(id_t(), &master, &variant, 0.05, exceeds).unwrap();
    let high = compute_delta_f32(id_t(), &master, &variant, 0.4, exceeds).unwrap();
    let low: Vec<(usize, f32)> = low.patches.iter().map(|p| (p.index, p.value)).collect();
    let high: Vec<(usize, f32)> = high.patches.iter().map(|p| (p.index, p.value)).collect();
    assert_eq!(low, vec![(0, 0.1), (1, 1.5), (3, 5.0)]);
    assert_eq!(high, vec![(1, 1.5), (3, 5.0)]);
}

#[test]
fn swapping_buffers_keeps_patched_indices() {
    let a = vec![0.0f32, 1.0, 2.0, 3.0];
    let b = vec![0.0f32, 1.5, 2.0, -3.0];
    let ab = compute_delta_f32(id_t(), &a, &b, 1e-6, exceeds).unwrap();
    let ba = compute_delta_f32(id_t(), &b, &a, 1e-6, exceeds).unwrap();
    let ab: Vec<(usize, f32)> = ab.patches.iter().map(|p| (p.index, p.value)).collect();
    let ba: Vec<(usize, f32)> = ba.patches.iter().map(|p| (p.index, p.value)).collect();
    assert_eq!(ab, vec![(1, 1.5), (3, -3.0)]);
    assert_eq!(ba, vec![(1, 1.0), (3, 3.0)]);
    assert!(compute_delta_f32(id_t(), &a, &b[..2], 1e-6, exceeds).is_err());
    assert!(compute_delta_f32(id_t(), &b[..2], &a, 1e-6, exceeds).is_err());
}

#[test]
fn applying_two_deltas_in_turn() {
    let master = vec![1.0f32, 2.0, 3.0];
    let d1 = Delta { id: id_t(), original_len: 3, patches: vec![Patch { index: 0, value: 5.0f32 }] };
    let d2 = Delta { id: id_t(), original_len: 3, patches: vec![Patch { index: 0, value: 6.0f32 }, Patch { index: 2, value: 7.0 }] };
    let once = apply_delta_f32(&master, &d1).unwrap();
    let twice = apply_delta_f32(&once, &d2).unwrap();
    assert_eq!(twice, vec![6.0f32, 2.0, 7.0]);
}
