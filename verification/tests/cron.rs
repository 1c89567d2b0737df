use haex::cron::{stays, Answer, ControlFlow, Cron};
use std::time::Duration;

#[test]
fn every_basic() {
    let time_step = Duration::from_secs(1);

    let mut ctx = Cron::default();
    let cb = ctx.every(time_step, |counter: &mut i32| {
        *counter += 1;
    });

    let mut counter = 0;
    ctx.update(time_step, &mut counter);
    assert_eq!(counter, 1);
    assert!(ctx.remove(cb));
}

#[test]
fn after_basic() {
    let time_step = Duration::from_secs(1);

    let mut ctx = Cron::default();
    let cb = ctx.after(time_step, |counter: &mut i32| {
        *counter += 1;
    });

    let mut counter = 0;
    ctx.update(time_step, &mut counter);
    assert_eq!(counter, 1);

    assert!(!ctx.remove(cb));
}

#[test]
fn remove_test() {
    let time_step = Duration::from_secs(1);
    let mut ctx = Cron::default();
    let cb = ctx.every(time_step, |counter: &mut i32| {
        *counter += 1;
    });
    assert!(ctx.remove(cb));
    assert!(!ctx.remove(cb));
}

#[test]
fn control_flow_test() {
    let time_step = Duration::from_secs(1);

    let mut ctx = Cron::default();
    let cb1 = ctx.every(time_step, |counter: &mut i32| {
        *counter += 1;
        if *counter >= 3 {
            ControlFlow::Stop
        } else {
            ControlFlow::Continue
        }
    });

    let mut counter = 0;
    while ctx.contains(cb1) {
        ctx.update(time_step, &mut counter);
    }
    assert_eq!(counter, 3);
}

fn bump(counter: &mut i32) {
    *counter += 1;
}

fn bump_by_ten(counter: &mut i32) {
    *counter += 10;
}

#[test]
fn every_keeps_what_is_left_of_its_interval() {
    let mut cron: Cron<i32, fn(&mut i32)> = Cron::default();
    let id = cron.every(Duration::from_millis(1000), bump);
    assert_eq!(id.0, 0);
    let mut counter = 0;
    cron.update(Duration::from_millis(700), &mut counter);
    assert_eq!(counter, 0);
    assert_eq!(cron.every_callbacks[0].running, Duration::from_millis(700));
    cron.update(Duration::from_millis(700), &mut counter);
    assert_eq!(counter, 1);
    assert_eq!(cron.every_callbacks[0].running, Duration::from_millis(400));
    cron.update(Duration::from_millis(600), &mut counter);
    assert_eq!(counter, 2);
    assert_eq!(cron.every_callbacks[0].running, Duration::from_millis(0));
    assert_eq!(cron.t, Duration::from_millis(2000));
}

#[test]
fn after_fires_once_and_leaves() {
    let mut cron: Cron<i32, fn(&mut i32)> = Cron::default();
    let first = cron.after(Duration::from_millis(300), bump);
    let second = cron.after(Duration::from_millis(500), bump_by_ten);
    assert_eq!((first.0, second.0), (0, 1));
    let mut counter = 0;
    cron.update(Duration::from_millis(200), &mut counter);
    assert_eq!(counter, 0);
    assert!(cron.contains(first) && cron.contains(second));
    cron.update(Duration::from_millis(200), &mut counter);
    assert_eq!(counter, 1);
    assert!(!cron.contains(first) && cron.contains(second));
    assert_eq!(cron.after_callbacks[0].running, Duration::from_millis(400));
    cron.update(Duration::from_millis(200), &mut counter);
    assert_eq!(counter, 11);
    assert!(!cron.contains(second));
    cron.update(Duration::from_millis(1000), &mut counter);
    assert_eq!(counter, 11);
}

#[test]
fn recurring_tasks_run_before_once_only_tasks() {
    let mut cron: Cron<Vec<u8>, fn(&mut Vec<u8>)> = Cron::default();
    fn once(log: &mut Vec<u8>) {
        log.push(1);
    }
    fn again(log: &mut Vec<u8>) {
        log.push(2);
    }
    cron.after(Duration::from_millis(10), once);
    cron.every(Duration::from_millis(10), again);
    let mut log = vec![];
    cron.update(Duration::from_millis(10), &mut log);
    assert_eq!(log, vec![2, 1]);
}

#[test]
fn removal_takes_the_task_with_the_handle() {
    let mut cron: Cron<i32, fn(&mut i32)> = Cron::default();
    let a = cron.every(Duration::from_millis(10), bump);
    let b = cron.after(Duration::from_millis(10), bump);
    let c = cron.every(Duration::from_millis(20), bump_by_ten);
    assert!(cron.contains(a) && cron.contains(b) && cron.contains(c));
    assert!(cron.remove(a));
    assert!(!cron.contains(a));
    assert_eq!(cron.every_callbacks.len(), 1);
    assert_eq!(cron.every_callbacks[0].id, c.0);
    assert!(cron.remove(b));
    assert!(cron.after_callbacks.is_empty());
    assert!(!cron.remove(b));
    let mut counter = 0;
    cron.update(Duration::from_millis(20), &mut counter);
    assert_eq!(counter, 10);
}

#[test]
fn a_task_stays_unless_it_asks_to_stop() {
    assert!(stays(ControlFlow::Continue));
    assert!(!stays(ControlFlow::Stop));
    assert_eq!(().flow(), ControlFlow::Continue);
    assert_eq!(ControlFlow::Stop.flow(), ControlFlow::Stop);
    assert_eq!(ControlFlow::Continue.flow(), ControlFlow::Continue);
    assert_eq!(ControlFlow::from(()), ControlFlow::Continue);
}

#[test]
fn a_due_task_is_called_once_however_much_time_has_passed() {
    let mut cron: Cron<i32, fn(&mut i32)> = Cron::default();
    cron.every(Duration::from_millis(10), bump);
    cron.after(Duration::from_millis(10), bump_by_ten);
    let mut counter = 0;
    cron.update(Duration::from_millis(35), &mut counter);
    assert_eq!(counter, 11);
    assert_eq!(cron.every_callbacks[0].running, Duration::from_millis(25));
    cron.update(Duration::from_millis(1), &mut counter);
    assert_eq!(counter, 12);
}

#[test]
fn a_task_that_stops_is_not_called_again() {
    fn stop_at_two(counter: &mut i32) -> ControlFlow {
        *counter += 1;
        if *counter >= 2 {
            ControlFlow::Stop
        } else {
            ControlFlow::Continue
        }
    }
    let mut cron: Cron<i32, fn(&mut i32) -> ControlFlow> = Cron::default();
    let id = cron.every(Duration::from_millis(10), stop_at_two);
    let mut counter = 0;
    cron.update(Duration::from_millis(10), &mut counter);
    assert!(cron.contains(id));
    cron.update(Duration::from_millis(10), &mut counter);
    assert!(!cron.contains(id));
    cron.update(Duration::from_millis(10), &mut counter);
    assert_eq!(counter, 2);
}
