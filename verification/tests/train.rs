use eml_sr::error::Error;
use eml_sr::train::{validate_dataset, EarlyStopping, EpochLoop, TrainingPlan};

#[test]
fn depth_zero_is_invalid() {
    assert_eq!(TrainingPlan::new(0), Err(Error::InvalidDepth(0)));
}

#[test]
fn plan_defaults_and_builders() {
    let p = TrainingPlan::new(3).unwrap();
    assert_eq!(
        p,
        TrainingPlan { depth: 3, epochs: 5000, seeds: 5, patience: 500 }
    );
    let p = p.epochs(2000).seeds(7);
    assert_eq!(p.depth(), 3);
    assert_eq!(p.epochs, 2000);
    assert_eq!(p.seeds, 7);
    assert_eq!(p.patience, 500);
}

#[test]
fn dataset_checks() {
    assert_eq!(validate_dataset(0, 3), Err(Error::EmptyDataset));
    assert_eq!(validate_dataset(3, 0), Err(Error::EmptyDataset));
    assert_eq!(validate_dataset(0, 0), Err(Error::EmptyDataset));
    assert_eq!(
        validate_dataset(3, 4),
        Err(Error::LengthMismatch { xs: 3, ys: 4 })
    );
    assert_eq!(validate_dataset(5, 5), Ok(()));
}

#[test]
fn early_stopping_after_patience_epochs() {
    let mut s = EarlyStopping::new(3);
    assert!(!s.observe(true));
    assert!(!s.observe(false));
    assert!(!s.observe(false));
    assert!(!s.observe(true));
    assert_eq!(s.counter, 0);
    assert!(!s.observe(false));
    assert!(!s.observe(false));
    assert!(s.observe(false));
    assert_eq!(s.counter, 3);
}

#[test]
fn early_stopping_with_zero_patience() {
    let mut s = EarlyStopping::new(0);
    assert!(!s.observe(true));
    assert!(s.observe(false));
}

#[test]
fn epoch_loop_runs_all_epochs_while_improving() {
    let mut run = EpochLoop::new(3, 2);
    let mut seen = Vec::new();
    while let Some(epoch) = run.next_epoch() {
        seen.push(epoch);
        assert!(!run.finish_epoch(true));
    }
    assert_eq!(seen, vec![0, 1, 2]);
    assert_eq!(run.trained(), 3);
}

#[test]
fn epoch_loop_stops_early() {
    let mut run = EpochLoop::new(10, 2);
    assert_eq!(run.next_epoch(), Some(0));
    assert!(!run.finish_epoch(true));
    assert_eq!(run.next_epoch(), Some(1));
    assert!(!run.finish_epoch(false));
    assert_eq!(run.next_epoch(), Some(2));
    assert!(run.finish_epoch(false));
    assert_eq!(run.trained(), 3);
}

#[test]
fn epoch_loop_with_no_epochs() {
    let run = EpochLoop::new(0, 5);
    assert_eq!(run.next_epoch(), None);
    assert_eq!(run.trained(), 0);
}
