use birb_task::run::execution::scheduler::{Action, Outcome, Poll, Scheduler, TaskTreeQueue};
use linked_hash_map::LinkedHashMap;
use linked_hash_set::LinkedHashSet;

fn sample_queue() -> TaskTreeQueue {
    let mut tq = TaskTreeQueue::new();
    tq.add(1, vec![2, 3]);
    tq.add(2, vec![4]);
    tq.add(3, vec![]);
    tq.add(4, vec![]);
    tq
}

/// Test the expected internal representation
#[test]
fn task_queue_construction() {
    let tq = sample_queue();

    assert_eq!(tq.queue_len(), 4);
    assert_eq!(tq.parents_len(), 3);
    assert_eq!(tq.waiting_count(1).unwrap(), 2);
    assert_eq!(tq.waiting_count(2).unwrap(), 1);
    assert_eq!(tq.waiting_count(3).unwrap(), 0);
    assert_eq!(tq.waiting_count(4).unwrap(), 0);
    assert_eq!(tq.dependents_count(1), None);
    assert_eq!(tq.dependents_count(2).unwrap(), 1);
    assert_eq!(tq.dependents_count(3).unwrap(), 1);
    assert_eq!(tq.dependents_count(4).unwrap(), 1);
}

/// Test the behavior in a simple case
#[test]
fn task_queue_poll() {
    let mut tq = sample_queue();

    assert_eq!(tq.take_next_ready_task(), Poll::Ready(Some(3)));
    assert_eq!(tq.take_next_ready_task(), Poll::Ready(Some(4)));
    assert_eq!(tq.take_next_ready_task(), Poll::Pending);

    tq.mark_fulfilled(3);
    assert_eq!(tq.take_next_ready_task(), Poll::Pending);

    tq.mark_fulfilled(4);
    assert_eq!(tq.take_next_ready_task(), Poll::Ready(Some(2)));
    assert_eq!(tq.take_next_ready_task(), Poll::Pending);

    tq.mark_fulfilled(2);
    assert_eq!(tq.take_next_ready_task(), Poll::Ready(Some(1)));
    assert_eq!(tq.take_next_ready_task(), Poll::Ready(None));

    assert_eq!(tq.queue_len(), 0);
    assert_eq!(tq.parents_len(), 0);
}

#[test]
fn empty_queue_is_ready_with_nothing() {
    let mut tq = TaskTreeQueue::new();
    assert_eq!(tq.take_next_ready_task(), Poll::Ready(None));
    assert_eq!(tq.queue_len(), 0);
}

#[test]
fn ready_tasks_come_in_the_order_of_their_addition() {
    let mut tq = TaskTreeQueue::new();
    tq.add(7, vec![]);
    tq.add(5, vec![]);
    tq.add(9, vec![5]);
    tq.add(6, vec![]);
    assert_eq!(tq.take_next_ready_task(), Poll::Ready(Some(7)));
    assert_eq!(tq.take_next_ready_task(), Poll::Ready(Some(5)));
    assert_eq!(tq.take_next_ready_task(), Poll::Ready(Some(6)));
    assert_eq!(tq.take_next_ready_task(), Poll::Pending);
    tq.mark_fulfilled(5);
    assert_eq!(tq.take_next_ready_task(), Poll::Ready(Some(9)));
}

#[test]
fn a_task_that_waits_twice_for_the_same_task_waits_once() {
    let mut tq = TaskTreeQueue::new();
    tq.add(1, vec![2, 2]);
    assert_eq!(tq.waiting_count(1), Some(1));
    assert_eq!(tq.dependents_count(2), Some(1));
}

fn graph(edges: Vec<(usize, Vec<usize>)>) -> LinkedHashMap<usize, LinkedHashSet<usize>> {
    let mut map = LinkedHashMap::new();
    for (node, successors) in edges {
        let mut set = LinkedHashSet::new();
        for s in successors {
            set.insert(s);
        }
        map.insert(node, set);
    }
    map
}

/// Runs a scheduler to its end with jobs that finish in the order in which
/// they were started, and returns the order of the starts.
fn drive(scheduler: &mut Scheduler, fail: Option<usize>) -> (Vec<usize>, Outcome) {
    let mut started = Vec::new();
    let mut running: Vec<usize> = Vec::new();
    loop {
        match scheduler.next_action(true) {
            Action::Spawn(task) => {
                started.push(task);
                running.push(task);
            }
            Action::Wait => {
                let task = running.remove(0);
                scheduler.job_finished(task, Some(task) != fail);
            }
            Action::Finish(outcome) => return (started, outcome),
        }
    }
}

#[test]
fn null_run() {
    let mut scheduler = Scheduler::new(1, vec![], &graph(vec![]));
    let (started, outcome) = drive(&mut scheduler, None);
    assert!(started.is_empty());
    assert!(matches!(outcome, Outcome::Done));
}

#[test]
fn trivial_run() {
    let mut scheduler = Scheduler::new(1, vec![1, 2, 3], &graph(vec![]));
    let (started, outcome) = drive(&mut scheduler, None);
    assert_eq!(started, vec![1, 2, 3]);
    assert!(matches!(outcome, Outcome::Done));
}

#[test]
fn less_trivial_run() {
    // 1 depends on 2
    let mut scheduler = Scheduler::new(1, vec![1, 2, 3], &graph(vec![(1, vec![2])]));
    let (started, outcome) = drive(&mut scheduler, None);
    assert_eq!(started, vec![2, 1, 3]);
    assert!(matches!(outcome, Outcome::Done));
}

#[test]
fn less_trivial_run_2() {
    // the second entry for 3 takes the place of the first: 3 depends on 2
    let edges = graph(vec![(3, vec![1]), (3, vec![2])]);
    let mut scheduler = Scheduler::new(1000, vec![1, 2, 3], &edges);
    let mut results = Vec::new();
    assert!(matches!(scheduler.next_action(true), Action::Spawn(1)));
    results.push(1);
    assert!(matches!(scheduler.next_action(true), Action::Spawn(2)));
    assert!(matches!(scheduler.next_action(true), Action::Wait));
    assert_eq!(scheduler.running_len(), 2);
    assert_eq!(results, vec![1]);
    assert!(!scheduler.job_finished(1, true));
    // 3 does not start before 2 has finished
    assert!(matches!(scheduler.next_action(true), Action::Wait));
    results.push(2);
    assert!(!scheduler.job_finished(2, true));
    assert_eq!(results, vec![1, 2]);
    assert!(matches!(scheduler.next_action(true), Action::Spawn(3)));
    results.push(3);
    assert!(matches!(scheduler.next_action(true), Action::Wait));
    assert!(!scheduler.job_finished(3, true));
    assert!(matches!(scheduler.next_action(true), Action::Finish(Outcome::Done)));
    assert_eq!(results, vec![1, 2, 3]);
}

#[test]
fn scheduler_waits_for_every_dependency() {
    // 3 depends on 1 and on 2
    let mut scheduler = Scheduler::new(1000, vec![1, 2, 3], &graph(vec![(3, vec![1, 2])]));
    assert!(matches!(scheduler.next_action(true), Action::Spawn(1)));
    assert!(matches!(scheduler.next_action(true), Action::Spawn(2)));
    assert!(matches!(scheduler.next_action(true), Action::Wait));
    assert!(!scheduler.job_finished(2, true));
    assert!(matches!(scheduler.next_action(true), Action::Wait));
    assert!(!scheduler.job_finished(1, true));
    assert!(matches!(scheduler.next_action(true), Action::Spawn(3)));
}

#[test]
fn scheduler_respects_the_limit() {
    let mut scheduler = Scheduler::new(2, vec![1, 2, 3], &graph(vec![]));
    assert!(matches!(scheduler.next_action(true), Action::Spawn(1)));
    assert!(matches!(scheduler.next_action(true), Action::Spawn(2)));
    assert!(matches!(scheduler.next_action(true), Action::Wait));
    assert!(scheduler.is_running(1));
    assert!(scheduler.is_running(2));
    assert!(!scheduler.is_running(3));
    scheduler.job_finished(2, true);
    assert!(matches!(scheduler.next_action(true), Action::Spawn(3)));
}

#[test]
fn scheduler_diamond_waits_for_both_branches() {
    // a=0 depends on b=1 and c=2, which depend on d=3; leaves first
    let edges = graph(vec![(0, vec![1, 2]), (1, vec![3]), (2, vec![3]), (3, vec![])]);
    let mut scheduler = Scheduler::new(2, vec![3, 1, 2, 0], &edges);
    assert!(matches!(scheduler.next_action(true), Action::Spawn(3)));
    assert!(matches!(scheduler.next_action(true), Action::Wait));
    scheduler.job_finished(3, true);
    assert!(matches!(scheduler.next_action(true), Action::Spawn(1)));
    assert!(matches!(scheduler.next_action(true), Action::Spawn(2)));
    assert!(matches!(scheduler.next_action(true), Action::Wait));
    scheduler.job_finished(1, true);
    assert!(matches!(scheduler.next_action(true), Action::Wait));
    scheduler.job_finished(2, true);
    assert!(matches!(scheduler.next_action(true), Action::Spawn(0)));
}

#[test]
fn scheduler_drains_on_failure() {
    let mut scheduler = Scheduler::new(2, vec![1, 2, 3], &graph(vec![]));
    assert!(matches!(scheduler.next_action(true), Action::Spawn(1)));
    assert!(matches!(scheduler.next_action(true), Action::Spawn(2)));
    // the first failure asks for the others to be aborted
    assert!(scheduler.job_finished(1, false));
    // nothing is started after a failure
    assert!(matches!(scheduler.next_action(true), Action::Wait));
    assert!(!scheduler.job_finished(2, false));
    match scheduler.next_action(true) {
        Action::Finish(Outcome::Failed(tasks)) => assert_eq!(tasks, vec![1, 2]),
        other => panic!("unexpected {:?}", other),
    }
    assert_eq!(scheduler.running_len(), 0);
}

#[test]
fn scheduler_failing_dependency_keeps_dependents_from_starting() {
    let mut scheduler = Scheduler::new(4, vec![2, 1], &graph(vec![(1, vec![2])]));
    let (started, outcome) = drive(&mut scheduler, Some(2));
    assert_eq!(started, vec![2]);
    match outcome {
        Outcome::Failed(tasks) => assert_eq!(tasks, vec![2]),
        other => panic!("unexpected {:?}", other),
    }
}

#[test]
fn scheduler_interruption_stops_feeding() {
    let mut scheduler = Scheduler::new(1, vec![1, 2, 3], &graph(vec![]));
    assert!(matches!(scheduler.next_action(true), Action::Spawn(1)));
    // the flag flips while 1 is running
    assert!(matches!(scheduler.next_action(false), Action::Wait));
    scheduler.job_finished(1, true);
    // even if the flag were seen as set again, nothing starts
    assert!(matches!(scheduler.next_action(true), Action::Finish(Outcome::Interrupted)));
}

#[test]
fn scheduler_interrupted_before_the_first_task() {
    let mut scheduler = Scheduler::new(3, vec![1, 2], &graph(vec![]));
    assert!(matches!(scheduler.next_action(false), Action::Finish(Outcome::Interrupted)));
}

#[test]
fn scheduler_stalls_on_a_dependency_that_is_no_task() {
    let mut scheduler = Scheduler::new(1, vec![1], &graph(vec![(1, vec![2])]));
    assert!(matches!(scheduler.next_action(true), Action::Finish(Outcome::Stalled)));
}
