use voice::config::{EPOCHS, PATIENCE};
use voice::label::Label;
use voice::training::{
    balance_classes, balancing_rng, epoch_rng, logs_accuracy, plan_epoch, tally, worst_class, ClassTally,
    TrainingMonitor,
};

fn count(sel: &[usize], labels: &[Label], l: Label) -> usize {
    sel.iter().filter(|&&i| labels[i] == l).count()
}

#[test]
fn balance_undersamples_majority() {
    let labels = vec![Label::Male, Label::Male, Label::Male, Label::Female, Label::Male, Label::Female];
    let mut rng = balancing_rng();
    let sel = balance_classes(&labels, &mut rng);
    assert_eq!(sel.len(), 4);
    assert_eq!(count(&sel, &labels, Label::Male), 2);
    assert_eq!(count(&sel, &labels, Label::Female), 2);
    let mut sorted = sel.clone();
    sorted.sort();
    sorted.dedup();
    assert_eq!(sorted.len(), 4);
    assert!(sel.iter().all(|&i| i < labels.len()));
    // The same seed gives the same selection.
    let again = balance_classes(&labels, &mut balancing_rng());
    assert_eq!(sel, again);
}

#[test]
fn balance_without_minority_is_empty() {
    let labels = vec![Label::Female; 5];
    assert!(balance_classes(&labels, &mut balancing_rng()).is_empty());
    assert!(balance_classes(&[], &mut balancing_rng()).is_empty());
}

#[test]
fn plan_epoch_shuffles_and_batches() {
    let mut order: Vec<usize> = (0..10).collect();
    let mut rng = epoch_rng();
    let batches = plan_epoch(&mut order, &mut rng, 4);
    assert_eq!(batches, vec![(0, 4), (4, 8), (8, 10)]);
    let mut sorted = order.clone();
    sorted.sort();
    assert_eq!(sorted, (0..10).collect::<Vec<usize>>());
}

#[test]
fn accuracy_logging_epochs() {
    assert!(logs_accuracy(1));
    assert!(!logs_accuracy(2));
    assert!(logs_accuracy(5));
    assert!(!logs_accuracy(7));
    assert!(logs_accuracy(10));
    assert!(logs_accuracy(120));
}

#[test]
fn monitor_runs_all_epochs() {
    let mut m = TrainingMonitor::new();
    let mut epochs = Vec::new();
    while let Some(e) = m.start_epoch() {
        epochs.push(e);
        assert!(!m.finish_epoch(Some(e % 2 == 0)));
    }
    assert_eq!(epochs, (1..=EPOCHS).collect::<Vec<usize>>());
    assert_eq!(m.start_epoch(), None);
}

#[test]
fn monitor_stops_after_patience_stalls() {
    let mut m = TrainingMonitor::new();
    assert!(!m.finish_epoch(Some(true)));
    for k in 1..PATIENCE {
        assert!(!m.finish_epoch(Some(false)));
        assert_eq!(m.stalled(), k);
    }
    assert!(m.finish_epoch(Some(false)));
    assert!(m.stopped());
    assert_eq!(m.start_epoch(), None);
    // A stopped monitor stays stopped.
    assert!(!m.finish_epoch(Some(true)));
    assert!(m.stopped());
}

#[test]
fn monitor_resets_on_improvement() {
    let mut m = TrainingMonitor::new();
    for _ in 0..10 {
        m.finish_epoch(Some(false));
    }
    assert_eq!(m.stalled(), 10);
    m.finish_epoch(None);
    assert_eq!(m.stalled(), 10);
    m.finish_epoch(Some(true));
    assert_eq!(m.stalled(), 0);
}

#[test]
fn monitor_without_validation_never_stops() {
    let mut m = TrainingMonitor::new();
    let mut n = 0;
    while m.start_epoch().is_some() {
        assert!(!m.finish_epoch(None));
        n += 1;
    }
    assert_eq!(n, EPOCHS);
    assert!(!m.stopped());
}

#[test]
fn tally_counts_per_class() {
    let pairs = vec![
        (Label::Male, Label::Male),
        (Label::Male, Label::Female),
        (Label::Female, Label::Female),
        (Label::Female, Label::Male),
        (Label::Female, Label::Female),
    ];
    let t = tally(&pairs);
    assert_eq!(t, ClassTally { male_correct: 1, male_total: 2, female_correct: 2, female_total: 3 });
}

#[test]
fn worst_class_picks_lowest_accuracy() {
    let t = ClassTally { male_correct: 8, male_total: 10, female_correct: 6, female_total: 10 };
    assert_eq!(worst_class(&t), Some((6, 10)));
    let t = ClassTally { male_correct: 1, male_total: 3, female_correct: 6, female_total: 10 };
    assert_eq!(worst_class(&t), Some((1, 3)));
    let t = ClassTally { male_correct: 1, male_total: 2, female_correct: 3, female_total: 6 };
    assert_eq!(worst_class(&t), Some((1, 2)));
    let t = ClassTally { male_correct: 0, male_total: 0, female_correct: 3, female_total: 4 };
    assert_eq!(worst_class(&t), Some((3, 4)));
    let t = ClassTally { male_correct: 0, male_total: 0, female_correct: 0, female_total: 0 };
    assert_eq!(worst_class(&t), None);
}

#[test]
fn plan_epoch_changes_the_order() {
    let initial: Vec<usize> = (0..100).collect();
    let mut order = initial.clone();
    let mut rng = epoch_rng();
    plan_epoch(&mut order, &mut rng, 256);
    assert_ne!(order, initial);
    let mut sorted = order.clone();
    sorted.sort();
    assert_eq!(sorted, initial);
}
