use turn_ring::ring::DiningPhilosophers;
use turn_ring::ring::RingError;

#[test]
fn new_rejects_zero_workers() {
    let r = DiningPhilosophers::new(5, 0);
    assert_eq!(r.err(), Some(RingError::ConfigurationInvalid));
}

#[test]
fn new_with_budgets_rejects_empty_ring() {
    let r = DiningPhilosophers::new_with_budgets(Vec::new());
    assert_eq!(r.err(), Some(RingError::ConfigurationInvalid));
}

#[test]
fn new_initial_state() {
    let c = DiningPhilosophers::new(5, 3).unwrap();
    assert_eq!(c.worker_count(), 3);
    assert!(c.can_act(0));
    assert!(!c.can_act(1));
    assert!(!c.can_act(2));
    assert_eq!(c.remaining(0), 5);
    assert_eq!(c.remaining(1), 5);
    assert_eq!(c.remaining(2), 5);
    assert_eq!(c.token_position(), 0);
}

#[test]
fn take_turn_moves_token_to_next_slot() {
    let mut c = DiningPhilosophers::new(1, 3).unwrap();
    let next = c.take_turn(0);
    assert_eq!(next, 1);
    assert!(!c.can_act(0));
    assert!(c.can_act(1));
    assert!(!c.can_act(2));
    assert_eq!(c.remaining(0), 0);
    assert_eq!(c.remaining(1), 1);
    assert_eq!(c.token_position(), 1);
}

#[test]
fn take_turn_wraps_around_the_ring() {
    let mut c = DiningPhilosophers::new(2, 3).unwrap();
    assert_eq!(c.take_turn(0), 1);
    assert_eq!(c.take_turn(1), 2);
    assert_eq!(c.take_turn(2), 0);
    assert!(c.can_act(0));
    assert_eq!(c.remaining(0), 1);
    assert_eq!(c.remaining(1), 1);
    assert_eq!(c.remaining(2), 1);
}

#[test]
fn round_robin_schedule_three_workers() {
    let mut c = DiningPhilosophers::new(2, 3).unwrap();
    let actions = c.run_schedule();
    assert_eq!(actions, vec![0, 1, 2, 0, 1, 2]);
}

#[test]
fn round_robin_schedule_five_workers_one_turn() {
    let mut c = DiningPhilosophers::new(1, 5).unwrap();
    let actions = c.run_schedule();
    assert_eq!(actions, vec![0, 1, 2, 3, 4]);
}

#[test]
fn run_exhausts_every_budget() {
    let mut c = DiningPhilosophers::new(4, 3).unwrap();
    let actions = c.run_schedule();
    assert_eq!(actions.len(), 12);
    for p in 0..3 {
        assert_eq!(c.remaining(p), 0);
    }
    // the last handoff returns the token to slot 0
    assert!(c.can_act(0));
    assert_eq!(c.token_position(), 0);
}

#[test]
fn rerun_with_same_configuration_is_deterministic() {
    let mut c1 = DiningPhilosophers::new(3, 4).unwrap();
    let mut c2 = DiningPhilosophers::new(3, 4).unwrap();
    assert_eq!(c1.run_schedule(), c2.run_schedule());
}

#[test]
fn zero_iterations_emit_no_actions() {
    let mut c = DiningPhilosophers::new(0, 3).unwrap();
    let actions = c.run_schedule();
    assert!(actions.is_empty());
    assert!(c.can_act(0));
}

#[test]
fn single_worker_hands_off_to_itself() {
    let mut c = DiningPhilosophers::new(4, 1).unwrap();
    assert_eq!(c.take_turn(0), 0);
    assert!(c.can_act(0));
    let actions = c.run_schedule();
    assert_eq!(actions, vec![0, 0, 0]);
}

#[test]
fn single_worker_full_schedule() {
    let mut c = DiningPhilosophers::new(4, 1).unwrap();
    let actions = c.run_schedule();
    assert_eq!(actions, vec![0, 0, 0, 0]);
}

#[test]
fn starved_last_worker_never_consumes_its_token() {
    // the last slot's budget is exhausted from the start: one pass reaches
    // it and the run ends there, without deadlocking the earlier workers
    let mut c = DiningPhilosophers::new_with_budgets(vec![2, 2, 0]).unwrap();
    let actions = c.run_schedule();
    assert_eq!(actions, vec![0, 1]);
    assert!(c.can_act(2));
    assert_eq!(c.remaining(2), 0);
    assert_eq!(c.remaining(0), 1);
    assert_eq!(c.remaining(1), 1);
}

#[test]
fn uneven_budgets_play_out_until_the_token_rests() {
    let mut c = DiningPhilosophers::new_with_budgets(vec![2, 1, 1]).unwrap();
    let actions = c.run_schedule();
    // 0, 1, 2 act in order; the token returns to 0 for its second turn,
    // then rests at slot 1 whose budget is spent
    assert_eq!(actions, vec![0, 1, 2, 0]);
    assert!(c.can_act(1));
    assert_eq!(c.remaining(1), 0);
}
