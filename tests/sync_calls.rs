use kernel_core::banker::is_safe_state;
use kernel_core::sync::{
    sys_condvar_create, sys_condvar_signal, sys_condvar_wait, sys_enable_deadlock_detect,
    sys_mutex_create, sys_mutex_lock, sys_mutex_unlock, sys_semaphore_create, sys_semaphore_down,
    sys_semaphore_up, sys_sleep, Process, DEADLOCK,
};

fn process_with_tasks(n: usize) -> Process {
    let mut p = Process::new();
    for _ in 0..n {
        p.add_task();
    }
    p
}

fn blocked(p: &Process, t: usize) -> bool {
    p.tasks[t].as_ref().unwrap().blocked
}

fn held(p: &Process, t: usize, s: usize) -> u64 {
    *p.tasks[t].as_ref().unwrap().allocation.get(&s).unwrap_or(&0)
}

fn needed(p: &Process, t: usize, s: usize) -> u64 {
    *p.tasks[t].as_ref().unwrap().need.get(&s).unwrap_or(&0)
}

fn count(p: &Process, s: usize) -> isize {
    p.semaphore_list[s].as_ref().unwrap().count
}

#[test]
fn deadlock_code_value() {
    assert_eq!(DEADLOCK, -0xDEAD);
    assert_eq!(DEADLOCK, -57005);
}

#[test]
fn enable_detect_values() {
    let mut p = Process::new();
    assert_eq!(sys_enable_deadlock_detect(&mut p, 1), 0);
    assert!(p.need_dead_lock_detect);
    assert_eq!(sys_enable_deadlock_detect(&mut p, 2), -1);
    assert!(p.need_dead_lock_detect);
    assert_eq!(sys_enable_deadlock_detect(&mut p, 0), 0);
    assert!(!p.need_dead_lock_detect);
}

#[test]
fn create_fills_first_hole() {
    let mut p = Process::new();
    assert_eq!(sys_semaphore_create(&mut p, 1), 0);
    assert_eq!(sys_semaphore_create(&mut p, 2), 1);
    assert_eq!(sys_semaphore_create(&mut p, 3), 2);
    p.semaphore_list[1] = None;
    assert_eq!(sys_semaphore_create(&mut p, 7), 1);
    assert_eq!(count(&p, 1), 7);
    assert_eq!(sys_mutex_create(&mut p, true), 0);
    assert_eq!(sys_mutex_create(&mut p, false), 1);
    assert!(!p.mutex_list[1].as_ref().unwrap().blocking);
    assert_eq!(sys_condvar_create(&mut p), 0);
    assert_eq!(sys_condvar_create(&mut p), 1);
}

#[test]
fn two_tasks_one_semaphore_with_detection() {
    let mut p = process_with_tasks(2);
    sys_enable_deadlock_detect(&mut p, 1);
    let s = sys_semaphore_create(&mut p, 1) as usize;
    assert_eq!(sys_semaphore_down(&mut p, 0, s), 0);
    assert_eq!(held(&p, 0, s), 1);
    assert_eq!(count(&p, s), 0);
    assert!(!blocked(&p, 0));
    // the second task waits: task 0 can finish and give the unit back
    assert_eq!(sys_semaphore_down(&mut p, 1, s), 0);
    assert!(blocked(&p, 1));
    assert_eq!(needed(&p, 1, s), 1);
    assert_eq!(count(&p, s), -1);
    assert_eq!(p.semaphore_list[s].as_ref().unwrap().wait_queue, vec![1]);
    assert_eq!(sys_semaphore_up(&mut p, 0, s), 0);
    assert!(!blocked(&p, 1));
    assert_eq!(held(&p, 0, s), 0);
    assert!(p.tasks[0].as_ref().unwrap().allocation.is_empty());
    assert_eq!(count(&p, s), 0);
    assert!(p.semaphore_list[s].as_ref().unwrap().wait_queue.is_empty());
}

#[test]
fn dining_philosophers_detection_refuses_the_cycle() {
    let n = 5;
    let mut p = process_with_tasks(n);
    sys_enable_deadlock_detect(&mut p, 1);
    for _ in 0..n {
        sys_semaphore_create(&mut p, 1);
    }
    for i in 0..n {
        assert_eq!(sys_semaphore_down(&mut p, i, i), 0);
    }
    let mut refused = 0;
    for i in 0..n {
        let r = sys_semaphore_down(&mut p, i, (i + 1) % n);
        if r == DEADLOCK {
            refused += 1;
        } else {
            assert_eq!(r, 0);
        }
    }
    assert!(refused >= 1);
    // the last philosopher's request would close the cycle
    assert_eq!(needed(&p, 4, 0), 0);
    assert!(!blocked(&p, 4));
}

#[test]
fn dining_philosophers_without_detection_allows_the_cycle() {
    let n = 5;
    let mut p = process_with_tasks(n);
    for _ in 0..n {
        sys_semaphore_create(&mut p, 1);
    }
    for i in 0..n {
        assert_eq!(sys_semaphore_down(&mut p, i, i), 0);
    }
    for i in 0..n {
        assert_eq!(sys_semaphore_down(&mut p, i, (i + 1) % n), 0);
        assert!(blocked(&p, i));
    }
}

#[test]
fn detection_skips_empty_slots() {
    let mut p = process_with_tasks(2);
    sys_enable_deadlock_detect(&mut p, 1);
    let s = sys_semaphore_create(&mut p, 1) as usize;
    let gone = sys_semaphore_create(&mut p, 3) as usize;
    p.tasks[1] = None;
    p.semaphore_list[gone] = None;
    assert_eq!(sys_semaphore_down(&mut p, 0, s), 0);
    assert_eq!(count(&p, s), 0);
    assert_eq!(held(&p, 0, s), 1);
}

#[test]
fn spin_mutex_unlock_frees_and_wakes_to_retry() {
    let mut p = process_with_tasks(2);
    let m = sys_mutex_create(&mut p, false) as usize;
    sys_mutex_lock(&mut p, 0, m);
    sys_mutex_lock(&mut p, 1, m);
    assert!(blocked(&p, 1));
    assert_eq!(sys_mutex_unlock(&mut p, m), 0);
    assert!(!p.mutex_list[m].as_ref().unwrap().locked);
    assert!(!blocked(&p, 1));
    assert!(p.mutex_list[m].as_ref().unwrap().wait_queue.is_empty());
    sys_mutex_lock(&mut p, 1, m);
    assert!(p.mutex_list[m].as_ref().unwrap().locked);
    assert!(!blocked(&p, 1));
}

#[test]
fn banker_check_on_matrices() {
    let alloc = vec![vec![0u64, 1], vec![1, 0]];
    let need = vec![vec![1u64, 0], vec![0, 1]];
    assert!(!is_safe_state(&alloc, &need, &vec![0, 0]));
    assert!(is_safe_state(&alloc, &need, &vec![1, 0]));
    assert!(is_safe_state(&vec![], &vec![], &vec![]));
}

#[test]
fn blocking_mutex_hands_over_in_order() {
    let mut p = process_with_tasks(3);
    let m = sys_mutex_create(&mut p, true) as usize;
    assert_eq!(sys_mutex_lock(&mut p, 0, m), 0);
    assert_eq!(sys_mutex_lock(&mut p, 1, m), 0);
    assert_eq!(sys_mutex_lock(&mut p, 2, m), 0);
    assert!(blocked(&p, 1) && blocked(&p, 2));
    assert_eq!(sys_mutex_unlock(&mut p, m), 0);
    assert!(!blocked(&p, 1) && blocked(&p, 2));
    assert!(p.mutex_list[m].as_ref().unwrap().locked);
    sys_mutex_unlock(&mut p, m);
    assert!(!blocked(&p, 2));
    sys_mutex_unlock(&mut p, m);
    assert!(!p.mutex_list[m].as_ref().unwrap().locked);
}

#[test]
fn condvar_wait_and_signal() {
    let mut p = process_with_tasks(2);
    let m = sys_mutex_create(&mut p, true) as usize;
    let c = sys_condvar_create(&mut p) as usize;
    sys_mutex_lock(&mut p, 0, m);
    assert_eq!(sys_condvar_wait(&mut p, 0, c, m), 0);
    assert!(blocked(&p, 0));
    assert!(!p.mutex_list[m].as_ref().unwrap().locked);
    sys_mutex_lock(&mut p, 1, m);
    assert_eq!(sys_condvar_signal(&mut p, c), 0);
    // the mutex is held by task 1: task 0 now waits for it
    assert!(blocked(&p, 0));
    assert_eq!(p.mutex_list[m].as_ref().unwrap().wait_queue, vec![0]);
    sys_mutex_unlock(&mut p, m);
    assert!(!blocked(&p, 0));
}

#[test]
fn sleep_adds_timer() {
    let mut p = process_with_tasks(1);
    assert_eq!(sys_sleep(&mut p, 0, 100, 25), 0);
    assert_eq!(p.timers.len(), 1);
    assert_eq!(p.timers[0].expire_ms, 125);
    assert_eq!(p.timers[0].task, 0);
    assert!(blocked(&p, 0));
}
