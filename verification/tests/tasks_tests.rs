//! The traversal work queues: local FIFO first, then the shared injector.

use crossbeam_deque::Injector;
use duff::{find_task, LocalQueue};

#[test]
fn local_queue_is_fifo() {
    let mut local = LocalQueue::new();
    let global: Injector<String> = Injector::new();
    local.push("/one".to_string());
    local.push("/two".to_string());
    assert_eq!(find_task(&mut local, &global), Some("/one".to_string()));
    assert_eq!(find_task(&mut local, &global), Some("/two".to_string()));
    assert_eq!(find_task(&mut local, &global), None);
}

#[test]
fn steal_from_global_when_local_is_empty() {
    let mut local = LocalQueue::new();
    let global: Injector<String> = Injector::new();
    global.push("/root".to_string());
    assert_eq!(find_task(&mut local, &global), Some("/root".to_string()));
    assert_eq!(find_task(&mut local, &global), None);
}

#[test]
fn local_work_comes_before_stolen_work() {
    let mut local = LocalQueue::new();
    let global: Injector<String> = Injector::new();
    global.push("/global".to_string());
    local.push("/local".to_string());
    assert_eq!(find_task(&mut local, &global), Some("/local".to_string()));
    assert_eq!(find_task(&mut local, &global), Some("/global".to_string()));
    assert_eq!(find_task(&mut local, &global), None);
}
