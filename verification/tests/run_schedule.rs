use md::{
    averaging_window, equilibration_actions, equilibration_schedule, production_actions,
    production_schedule, EQ_RESCALE_EVERY, PROD_RESCALE_EVERY,
};

#[test]
fn rescale_periods_are_fifty() {
    assert_eq!(EQ_RESCALE_EVERY, 50);
    assert_eq!(PROD_RESCALE_EVERY, 50);
}

#[test]
fn equilibration_rescales_every_fifty_steps_including_the_last() {
    let rescales: Vec<usize> = (1..=2000).filter(|&s| equilibration_actions(s).rescale).collect();
    assert_eq!(rescales.len(), 40);
    assert_eq!(rescales[0], 50);
    assert_eq!(*rescales.last().unwrap(), 2000);
    assert!((1..=2000).all(|s| !equilibration_actions(s).sample));
}

#[test]
fn production_records_steps_over_sample_every_frames() {
    let frames: Vec<usize> = (1..=10000).filter(|&s| production_actions(s, 50, false).sample).collect();
    assert_eq!(frames.len(), 200);
    assert_eq!(frames[0], 50);
    assert_eq!(*frames.last().unwrap(), 10000);
    let short: Vec<usize> = (1..=36).filter(|&s| production_actions(s, 5, false).sample).collect();
    assert_eq!(short, vec![5, 10, 15, 20, 25, 30, 35]);
}

#[test]
fn production_thermostat_only_when_ramping() {
    assert!(!production_actions(50, 7, false).rescale);
    assert!(production_actions(50, 7, true).rescale);
    assert!(!production_actions(49, 7, true).rescale);
    assert!(production_actions(0, 7, true).sample);
    let a = production_actions(100, 50, true);
    assert!(a.rescale && a.sample);
}

#[test]
fn averaging_window_is_a_tenth_at_least_one() {
    assert_eq!(averaging_window(200), 20);
    assert_eq!(averaging_window(25), 2);
    assert_eq!(averaging_window(9), 1);
    assert_eq!(averaging_window(1), 1);
    assert_eq!(averaging_window(0), 1);
}

#[test]
fn production_schedule_starts_at_step_one() {
    let acts = production_schedule(100, 10, false);
    assert_eq!(acts.len(), 100);
    let frames: Vec<usize> = acts
        .iter()
        .enumerate()
        .filter(|(_, a)| a.sample)
        .map(|(k, _)| k + 1)
        .collect();
    assert_eq!(frames, vec![10, 20, 30, 40, 50, 60, 70, 80, 90, 100]);
    assert!(acts.iter().all(|a| !a.rescale));
    assert!(production_schedule(0, 0, true).is_empty());
    let heated = production_schedule(120, 7, true);
    let rescales: Vec<usize> = heated
        .iter()
        .enumerate()
        .filter(|(_, a)| a.rescale)
        .map(|(k, _)| k + 1)
        .collect();
    assert_eq!(rescales, vec![50, 100]);
    assert_eq!(heated.iter().filter(|a| a.sample).count(), 120 / 7);
}

#[test]
fn equilibration_schedule_rescales_every_fifty() {
    let acts = equilibration_schedule(2000);
    assert_eq!(acts.len(), 2000);
    assert_eq!(acts.iter().filter(|a| a.rescale).count(), 40);
    assert!(acts[1999].rescale);
    assert!(acts[48].rescale == false && acts[49].rescale);
    assert!(acts.iter().all(|a| !a.sample));
    assert!(equilibration_schedule(0).is_empty());
}
