use eigen::levenberg_marquardt::{
    DampingUpdate, LevenbergMarquardtConfig, LevenbergMarquardtResult, SolveProgress,
    StepOutcome,
};

fn run(max_iterations: usize, outcomes: &[StepOutcome]) -> (LevenbergMarquardtResult<f64>, Vec<DampingUpdate>) {
    let mut progress = SolveProgress::new(max_iterations);
    let mut updates = Vec::new();
    let mut next = outcomes.iter();
    while progress.is_running() {
        let outcome = *next.next().expect("enough outcomes");
        updates.push(progress.record(outcome));
    }
    (progress.finish(0.25), updates)
}

#[test]
fn converges_on_first_small_accepted_step() {
    let (result, updates) = run(
        100,
        &[
            StepOutcome::FactorizationFailed,
            StepOutcome::Accepted { small_step: false },
            StepOutcome::Rejected,
            StepOutcome::Accepted { small_step: true },
        ],
    );
    assert!(result.converged);
    assert_eq!(result.iterations, 4);
    assert_eq!(result.cost, 0.25);
    assert_eq!(
        updates,
        vec![
            DampingUpdate::Increase,
            DampingUpdate::Decrease,
            DampingUpdate::Increase,
            DampingUpdate::Decrease,
        ]
    );
}

#[test]
fn stops_after_max_iterations_without_converging() {
    let (result, updates) = run(
        3,
        &[
            StepOutcome::Rejected,
            StepOutcome::Accepted { small_step: false },
            StepOutcome::FactorizationFailed,
        ],
    );
    assert!(!result.converged);
    assert_eq!(result.iterations, 3);
    assert_eq!(updates.len(), 3);
}

#[test]
fn small_step_on_last_iteration_converges() {
    let (result, _) = run(2, &[StepOutcome::Rejected, StepOutcome::Accepted { small_step: true }]);
    assert!(result.converged);
    assert_eq!(result.iterations, 2);
}

#[test]
fn zero_iterations_never_run() {
    let progress = SolveProgress::new(0);
    assert!(!progress.is_running());
    let result = progress.finish(7.0);
    assert!(!result.converged);
    assert_eq!(result.iterations, 0);
    assert_eq!(result.cost, 7.0);
}

#[test]
fn config_holds_its_settings() {
    let config = LevenbergMarquardtConfig {
        max_iterations: 100,
        lambda_initial: 1e-3,
        lambda_factor: 10.0,
        convergence_tol: 1e-8,
        finite_difference_epsilon: 1e-6,
    };
    let copy = config.clone();
    assert_eq!(copy.max_iterations, 100);
    assert_eq!(copy.lambda_factor, 10.0);
}
