use listen_timers::deadline_heap::deadline_passed;
use listen_timers::timers::{
    check_events, clear_alarm_wakeup, next_expired, set_alarm_wakeup, TaskPtr, TimerList, Wakeup,
};

fn wakeup(task: usize, serial: u64, deadline: u64) -> Wakeup {
    Wakeup { task: TaskPtr::new(task), serial, deadline }
}

#[test]
fn task_identity_is_its_address() {
    assert_eq!(TaskPtr::new(0x1000), TaskPtr::new(0x1000));
    assert_ne!(TaskPtr::new(0x1000), TaskPtr::new(0x1008));
    assert_eq!(TaskPtr::new(7).0, 7);
}

#[test]
fn deadline_has_passed_unless_it_lies_in_the_future() {
    assert!(!deadline_passed(100, 99));
    assert!(deadline_passed(100, 100));
    assert!(deadline_passed(100, 101));
    assert!(deadline_passed(0, 0));
    assert!(!deadline_passed(1, 0));
    assert!(deadline_passed(u64::MAX, u64::MAX));
    assert!(!deadline_passed(u64::MAX, u64::MAX - 1));
}

#[test]
fn empty_timers_have_nothing_to_wake() {
    let mut list = TimerList::new();
    assert!(list.can_arm());
    assert_eq!(check_events(&mut list, u64::MAX), vec![]);
    assert_eq!(next_expired(&mut list, u64::MAX), None);
}

#[test]
fn tick_wakes_what_has_expired_earliest_first() {
    let mut list = TimerList::new();
    set_alarm_wakeup(&mut list, 300, &TaskPtr::new(3));
    set_alarm_wakeup(&mut list, 100, &TaskPtr::new(1));
    set_alarm_wakeup(&mut list, 400, &TaskPtr::new(4));
    set_alarm_wakeup(&mut list, 200, &TaskPtr::new(2));
    assert_eq!(check_events(&mut list, 99), vec![]);
    assert_eq!(
        check_events(&mut list, 300),
        vec![wakeup(1, 1, 100), wakeup(2, 3, 200), wakeup(3, 0, 300)]
    );
    assert_eq!(check_events(&mut list, 300), vec![]);
    assert_eq!(check_events(&mut list, 399), vec![]);
    assert_eq!(check_events(&mut list, 400), vec![wakeup(4, 2, 400)]);
    assert_eq!(check_events(&mut list, u64::MAX), vec![]);
}

#[test]
fn tick_step_takes_one_request_at_a_time() {
    let mut list = TimerList::new();
    set_alarm_wakeup(&mut list, 20, &TaskPtr::new(2));
    set_alarm_wakeup(&mut list, 10, &TaskPtr::new(1));
    assert_eq!(next_expired(&mut list, 9), None);
    assert_eq!(next_expired(&mut list, 50), Some(wakeup(1, 1, 10)));
    assert_eq!(next_expired(&mut list, 15), None);
    assert_eq!(next_expired(&mut list, 50), Some(wakeup(2, 0, 20)));
    assert_eq!(next_expired(&mut list, 50), None);
}

#[test]
fn rearmed_task_has_two_requests() {
    let mut list = TimerList::new();
    let task = TaskPtr::new(0xabc0);
    set_alarm_wakeup(&mut list, 100, &task);
    set_alarm_wakeup(&mut list, 200, &task);
    assert_eq!(check_events(&mut list, 150), vec![wakeup(0xabc0, 0, 100)]);
    assert_eq!(check_events(&mut list, 150), vec![]);
    assert_eq!(check_events(&mut list, 199), vec![]);
    assert_eq!(check_events(&mut list, 200), vec![wakeup(0xabc0, 1, 200)]);
}

#[test]
fn rearmed_task_is_woken_at_the_first_deadline_itself() {
    let mut list = TimerList::new();
    let task = TaskPtr::new(9);
    set_alarm_wakeup(&mut list, 100, &task);
    set_alarm_wakeup(&mut list, 200, &task);
    assert_eq!(check_events(&mut list, 99), vec![]);
    assert_eq!(check_events(&mut list, 100), vec![wakeup(9, 0, 100)]);
    assert_eq!(check_events(&mut list, u64::MAX), vec![wakeup(9, 1, 200)]);
}

#[test]
fn rearmed_task_is_woken_for_both_requests_by_a_late_tick() {
    let mut list = TimerList::new();
    let task = TaskPtr::new(5);
    set_alarm_wakeup(&mut list, 100, &task);
    set_alarm_wakeup(&mut list, 200, &task);
    assert_eq!(check_events(&mut list, 1000), vec![wakeup(5, 0, 100), wakeup(5, 1, 200)]);
}

#[test]
fn requests_of_one_task_are_withdrawn_one_by_one() {
    let mut list = TimerList::new();
    let task = TaskPtr::new(5);
    set_alarm_wakeup(&mut list, 100, &task);
    set_alarm_wakeup(&mut list, 200, &task);
    clear_alarm_wakeup(&mut list, &task);
    assert_eq!(check_events(&mut list, 150), vec![]);
    let mut again = TimerList::new();
    set_alarm_wakeup(&mut again, 100, &task);
    set_alarm_wakeup(&mut again, 200, &task);
    clear_alarm_wakeup(&mut again, &task);
    clear_alarm_wakeup(&mut again, &task);
    assert_eq!(check_events(&mut again, u64::MAX), vec![]);
    clear_alarm_wakeup(&mut list, &task);
    assert_eq!(check_events(&mut list, u64::MAX), vec![]);
}

#[test]
fn withdrawal_takes_the_oldest_request_whatever_its_deadline() {
    let mut list = TimerList::new();
    let task = TaskPtr::new(5);
    set_alarm_wakeup(&mut list, 900, &task);
    set_alarm_wakeup(&mut list, 100, &task);
    set_alarm_wakeup(&mut list, 500, &task);
    clear_alarm_wakeup(&mut list, &task);
    assert_eq!(check_events(&mut list, 1000), vec![wakeup(5, 1, 100), wakeup(5, 2, 500)]);
}

#[test]
fn withdrawal_without_a_request_changes_nothing() {
    let mut list = TimerList::new();
    clear_alarm_wakeup(&mut list, &TaskPtr::new(1));
    set_alarm_wakeup(&mut list, 100, &TaskPtr::new(2));
    set_alarm_wakeup(&mut list, 50, &TaskPtr::new(3));
    clear_alarm_wakeup(&mut list, &TaskPtr::new(1));
    clear_alarm_wakeup(&mut list, &TaskPtr::new(4));
    assert_eq!(check_events(&mut list, 100), vec![wakeup(3, 1, 50), wakeup(2, 0, 100)]);
}

#[test]
fn withdrawal_spares_the_other_tasks() {
    let mut list = TimerList::new();
    set_alarm_wakeup(&mut list, 10, &TaskPtr::new(1));
    set_alarm_wakeup(&mut list, 20, &TaskPtr::new(2));
    set_alarm_wakeup(&mut list, 30, &TaskPtr::new(3));
    clear_alarm_wakeup(&mut list, &TaskPtr::new(2));
    assert_eq!(check_events(&mut list, 31), vec![wakeup(1, 0, 10), wakeup(3, 2, 30)]);
}

#[test]
fn equal_deadlines_are_all_woken() {
    let mut list = TimerList::new();
    set_alarm_wakeup(&mut list, 10, &TaskPtr::new(1));
    set_alarm_wakeup(&mut list, 10, &TaskPtr::new(2));
    set_alarm_wakeup(&mut list, 10, &TaskPtr::new(1));
    let mut woken = check_events(&mut list, 11);
    woken.sort_by_key(|w| w.serial);
    assert_eq!(woken, vec![wakeup(1, 0, 10), wakeup(2, 1, 10), wakeup(1, 2, 10)]);
    assert_eq!(check_events(&mut list, 11), vec![]);
}

#[test]
fn many_requests_come_out_in_deadline_order() {
    let mut list = TimerList::new();
    for i in 0..200u64 {
        let deadline = (i * 7919) % 1000;
        set_alarm_wakeup(&mut list, deadline, &TaskPtr::new(i as usize));
    }
    for i in (0..200usize).filter(|i| i % 3 == 0) {
        clear_alarm_wakeup(&mut list, &TaskPtr::new(i));
    }
    let woken = check_events(&mut list, 499);
    assert!(woken.windows(2).all(|w| w[0].deadline <= w[1].deadline));
    assert!(woken.iter().all(|w| w.deadline < 500 && w.task.0 % 3 != 0));
    assert!(woken.iter().all(|w| w.deadline == (w.serial * 7919) % 1000 && w.task.0 as u64 == w.serial));
    let expected = (0..200u64).filter(|i| i % 3 != 0 && (i * 7919) % 1000 < 500).count();
    assert_eq!(woken.len(), expected);
    let rest = check_events(&mut list, u64::MAX);
    let left = (0..200u64).filter(|i| i % 3 != 0 && (i * 7919) % 1000 >= 500).count();
    assert_eq!(rest.len(), left);
}
