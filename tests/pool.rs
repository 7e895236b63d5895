use hello::pool::{Delivery, ExecuteError, Pool, PoolCreationError, WorkerState};

#[test]
fn build_zero_fails() {
    assert_eq!(Pool::build(0).err(), Some(PoolCreationError));
}

#[test]
fn build_spawns_exactly_n_waiting_workers() {
    for n in 1..6usize {
        let p = Pool::build(n).unwrap();
        assert_eq!(p.size(), n);
        for w in 0..n {
            assert_eq!(p.worker_state(w), WorkerState::Waiting);
        }
        assert_eq!(p.queued(), 0);
        assert_eq!(p.submitted(), 0);
        assert!(p.is_open());
        assert!(!p.is_finished());
    }
}

#[test]
fn execute_hands_out_ids_in_order() {
    let mut p = Pool::build(1).unwrap();
    assert_eq!(p.execute(), Ok(0));
    assert_eq!(p.execute(), Ok(1));
    assert_eq!(p.execute(), Ok(2));
    assert_eq!(p.submitted(), 3);
    assert_eq!(p.queued(), 3);
}

#[test]
fn more_tasks_than_workers_are_all_kept() {
    let mut p = Pool::build(2).unwrap();
    for i in 0..10u64 {
        assert_eq!(p.execute(), Ok(i));
    }
    assert_eq!(p.queued(), 10);
    let mut seen = Vec::new();
    loop {
        match p.receive(0) {
            Delivery::Task(t) => {
                seen.push(t);
                assert_eq!(p.complete(0), t);
            }
            Delivery::Empty => break,
            Delivery::Closed => panic!("queue is still open"),
        }
    }
    assert_eq!(seen, (0..10u64).collect::<Vec<u64>>());
    assert_eq!(p.worker_state(1), WorkerState::Waiting);
}

#[test]
fn waiting_on_an_open_empty_queue_gets_nothing() {
    let mut p = Pool::build(1).unwrap();
    assert_eq!(p.receive(0), Delivery::Empty);
    assert_eq!(p.worker_state(0), WorkerState::Waiting);
}

#[test]
fn execute_after_shutdown_is_refused() {
    let mut p = Pool::build(1).unwrap();
    p.shutdown();
    assert!(!p.is_open());
    assert_eq!(p.execute(), Err(ExecuteError::ShuttingDown));
    assert_eq!(p.submitted(), 0);
}

#[test]
fn teardown_drains_queue_before_workers_exit() {
    let mut p = Pool::build(2).unwrap();
    p.execute().unwrap();
    p.execute().unwrap();
    p.execute().unwrap();
    assert_eq!(p.receive(0), Delivery::Task(0));
    p.shutdown();
    // Worker 1 still gets queued work after the queue is closed.
    assert_eq!(p.receive(1), Delivery::Task(1));
    assert_eq!(p.complete(1), 1);
    assert_eq!(p.receive(1), Delivery::Task(2));
    assert_eq!(p.complete(1), 2);
    assert_eq!(p.receive(1), Delivery::Closed);
    assert_eq!(p.worker_state(1), WorkerState::Terminated);
    assert!(!p.is_finished());
    // Worker 0 finishes its running task before it can see the closure.
    assert_eq!(p.worker_state(0), WorkerState::Running(0));
    assert_eq!(p.complete(0), 0);
    assert_eq!(p.receive(0), Delivery::Closed);
    assert!(p.is_finished());
    assert_eq!(p.queued(), 0);
}

#[test]
fn two_workers_four_tasks_start_log_is_complete() {
    let mut p = Pool::build(2).unwrap();
    for _ in 0..4 {
        p.execute().unwrap();
    }
    let mut log: Vec<u64> = Vec::new();
    let mut done: Vec<u64> = Vec::new();
    // Interleave the two workers as a scheduler might.
    for round in 0..2usize {
        for w in 0..2usize {
            match p.receive(w) {
                Delivery::Task(t) => log.push(t),
                other => panic!("round {} worker {}: {:?}", round, w, other),
            }
        }
        done.push(p.complete(1));
        done.push(p.complete(0));
    }
    p.shutdown();
    assert_eq!(p.receive(0), Delivery::Closed);
    assert_eq!(p.receive(1), Delivery::Closed);
    assert!(p.is_finished());
    assert_eq!(log.len(), 4);
    let mut sorted = log.clone();
    sorted.sort();
    sorted.dedup();
    assert_eq!(sorted, vec![0, 1, 2, 3]);
    assert_eq!(log, vec![0, 1, 2, 3]);
    done.sort();
    assert_eq!(done, vec![0, 1, 2, 3]);
}

#[test]
fn busy_worker_does_not_hold_up_another() {
    let mut p = Pool::build(2).unwrap();
    let slow = p.execute().unwrap();
    let quick = p.execute().unwrap();
    assert_eq!(p.receive(0), Delivery::Task(slow));
    // While worker 0 is still running the slow task, worker 1 takes and
    // finishes the next one.
    assert_eq!(p.receive(1), Delivery::Task(quick));
    assert_eq!(p.complete(1), quick);
    assert_eq!(p.worker_state(0), WorkerState::Running(slow));
    assert_eq!(p.complete(0), slow);
}
