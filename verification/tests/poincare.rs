use lau_symplectic_geometry::poincare::{all_returns, first_return, recurrence_span};

fn closeness(trajectory: &[[f64; 2]], tolerance: f64) -> Vec<bool> {
    let initial = trajectory[0];
    trajectory
        .iter()
        .map(|p| ((p[0] - initial[0]).powi(2) + (p[1] - initial[1]).powi(2)).sqrt() < tolerance)
        .collect()
}

#[test]
fn test_find_first_return_empty() {
    let traj = [[1.0, 0.0]];
    assert!(first_return(&closeness(&traj, 0.1)).is_none());
}

#[test]
fn test_find_first_return_single_point() {
    let traj = [[0.0, 0.0], [0.05, 0.0]];
    assert_eq!(first_return(&closeness(&traj, 0.1)), Some(1));
}

#[test]
fn test_find_all_returns() {
    let traj = [[1.0, 0.0], [2.0, 0.0], [0.99, 0.0], [3.0, 0.0], [1.01, 0.0]];
    assert_eq!(all_returns(&closeness(&traj, 0.1)), vec![2, 4]);
}

#[test]
fn test_estimate_recurrence_time() {
    let traj = [[0.0, 0.0], [1.0, 0.0], [0.05, 0.0], [1.0, 0.0], [0.05, 0.0]];
    let span = recurrence_span(&closeness(&traj, 0.1));
    assert!(span.is_some());
    let (steps, intervals) = span.unwrap();
    let recurrence_time = steps as f64 * 0.1 / intervals as f64;
    assert!((recurrence_time - 0.2).abs() < 1e-10);
}

#[test]
fn test_harmonic_oscillator_recurrence() {
    let dt = 0.01;
    let traj: Vec<[f64; 2]> = (0..10000)
        .map(|i| {
            let t = i as f64 * dt;
            [t.cos(), -t.sin()]
        })
        .collect();
    let first = first_return(&closeness(&traj, 0.005));
    assert!(first.is_some());
    if let Some(idx) = first {
        assert!((idx as f64 - 628.0).abs() < 10.0);
    }
}

#[test]
fn no_points_no_returns() {
    let close: Vec<bool> = Vec::new();
    assert_eq!(first_return(&close), None);
    assert!(all_returns(&close).is_empty());
    assert_eq!(recurrence_span(&close), None);
}

#[test]
fn initial_point_never_counts() {
    let close = vec![true, false, false];
    assert_eq!(first_return(&close), None);
    assert!(all_returns(&close).is_empty());
}

#[test]
fn first_return_heads_all_returns() {
    let close = vec![true, false, true, true, false, true];
    assert_eq!(all_returns(&close), vec![2, 3, 5]);
    assert_eq!(first_return(&close), Some(2));
    assert_eq!(recurrence_span(&close), Some((3, 2)));
}

#[test]
fn one_return_gives_no_span() {
    let close = vec![true, false, true];
    assert_eq!(recurrence_span(&close), None);
}
