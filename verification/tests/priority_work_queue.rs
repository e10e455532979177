use std::collections::HashSet;
use the_dagwood::priority_work_queue::{PrioritizedTask, PriorityWorkQueue};
use the_dagwood::string_map::StringSet;

#[test]
fn test_priority_ordering() {
    let mut queue = PriorityWorkQueue::new();

    queue.push(PrioritizedTask::new("low_rank".to_string(), 0, false));
    queue.push(PrioritizedTask::new("high_rank".to_string(), 2, false));
    queue.push(PrioritizedTask::new("mid_rank".to_string(), 1, false));

    let blocked = StringSet::new();

    assert_eq!(queue.pop_next_available(&blocked), Some("high_rank".to_string()));
    assert_eq!(queue.pop_next_available(&blocked), Some("mid_rank".to_string()));
    assert_eq!(queue.pop_next_available(&blocked), Some("low_rank".to_string()));
}

#[test]
fn test_transform_priority_over_analyze() {
    let mut queue = PriorityWorkQueue::new();

    queue.push(PrioritizedTask::new("analyze".to_string(), 1, false));
    queue.push(PrioritizedTask::new("transform".to_string(), 1, true));

    let blocked = StringSet::new();

    assert_eq!(queue.pop_next_available(&blocked), Some("transform".to_string()));
    assert_eq!(queue.pop_next_available(&blocked), Some("analyze".to_string()));
}

#[test]
fn test_blocked_processor_handling() {
    let mut queue = PriorityWorkQueue::new();

    queue.push(PrioritizedTask::new("blocked_high".to_string(), 2, true));
    queue.push(PrioritizedTask::new("available_low".to_string(), 1, true));

    let mut blocked = StringSet::new();
    blocked.insert("blocked_high".to_string());

    assert_eq!(queue.pop_next_available(&blocked), Some("available_low".to_string()));

    blocked.clear();
    assert_eq!(queue.pop_next_available(&blocked), Some("blocked_high".to_string()));
}

#[test]
fn test_empty_queue() {
    let mut queue = PriorityWorkQueue::new();
    let blocked = StringSet::new();

    assert_eq!(queue.pop_next_available(&blocked), None);
    assert!(queue.is_empty());
}

#[test]
fn test_all_blocked() {
    let mut queue = PriorityWorkQueue::new();

    queue.push(PrioritizedTask::new("task1".to_string(), 1, true));
    queue.push(PrioritizedTask::new("task2".to_string(), 2, true));

    let mut blocked = StringSet::new();
    blocked.insert("task1".to_string());
    blocked.insert("task2".to_string());

    assert_eq!(queue.pop_next_available(&blocked), None);

    assert!(!queue.is_empty());
    assert_eq!(queue.len(), 2);
}

#[test]
fn test_blocked_task_storage_optimization() {
    let mut queue = PriorityWorkQueue::new();

    queue.push(PrioritizedTask::new("high_blocked".to_string(), 3, true));
    queue.push(PrioritizedTask::new("mid_blocked".to_string(), 2, true));
    queue.push(PrioritizedTask::new("low_available".to_string(), 1, true));
    queue.push(PrioritizedTask::new("lowest_available".to_string(), 0, true));

    let mut blocked = StringSet::new();
    blocked.insert("high_blocked".to_string());
    blocked.insert("mid_blocked".to_string());

    assert_eq!(queue.pop_next_available(&blocked), Some("low_available".to_string()));
    assert_eq!(queue.len(), 3);

    assert_eq!(queue.pop_next_available(&blocked), Some("lowest_available".to_string()));

    blocked.remove("high_blocked");
    assert_eq!(queue.pop_next_available(&blocked), Some("high_blocked".to_string()));
    assert_eq!(queue.len(), 1);

    blocked.clear();
    assert_eq!(queue.pop_next_available(&blocked), Some("mid_blocked".to_string()));

    assert!(queue.is_empty());
    assert_eq!(queue.len(), 0);
}

#[test]
fn test_iter_includes_both_heap_and_blocked_tasks() {
    let mut queue = PriorityWorkQueue::new();

    queue.push(PrioritizedTask { processor_id: "heap_task_1".to_string(), topological_rank: 5, is_transform: false });
    queue.push(PrioritizedTask { processor_id: "heap_task_2".to_string(), topological_rank: 3, is_transform: true });
    queue.push(PrioritizedTask { processor_id: "blocked_task_1".to_string(), topological_rank: 10, is_transform: false });
    queue.push(PrioritizedTask { processor_id: "blocked_task_2".to_string(), topological_rank: 8, is_transform: true });

    let all_task_ids: HashSet<String> = queue.iter().iter().map(|task| task.processor_id.clone()).collect();
    assert_eq!(all_task_ids.len(), 4);
    assert!(all_task_ids.contains("heap_task_1"));
    assert!(all_task_ids.contains("heap_task_2"));
    assert!(all_task_ids.contains("blocked_task_1"));
    assert!(all_task_ids.contains("blocked_task_2"));

    let mut blocked = StringSet::new();
    blocked.insert("blocked_task_1".to_string());
    blocked.insert("blocked_task_2".to_string());

    let available1 = queue.pop_next_available(&blocked);
    assert_eq!(available1, Some("heap_task_1".to_string()));

    let available2 = queue.pop_next_available(&blocked);
    assert_eq!(available2, Some("heap_task_2".to_string()));

    assert_eq!(queue.len(), 2);

    let remaining_task_ids: HashSet<String> = queue.iter().iter().map(|task| task.processor_id.clone()).collect();
    assert_eq!(remaining_task_ids.len(), 2);
    assert!(remaining_task_ids.contains("blocked_task_1"));
    assert!(remaining_task_ids.contains("blocked_task_2"));

    // The blocked tasks are parked, none is among the ready ones.
    assert_eq!(queue.ready_count(), 0);

    assert_eq!(queue.iter().iter().count(), 2);

    blocked.remove("blocked_task_1");

    let unblocked = queue.pop_next_available(&blocked);
    assert_eq!(unblocked, Some("blocked_task_1".to_string()));

    let final_task_ids: HashSet<String> = queue.iter().iter().map(|task| task.processor_id.clone()).collect();
    assert_eq!(final_task_ids.len(), 1);
    assert!(final_task_ids.contains("blocked_task_2"));
}

#[test]
fn queue_length_counts_pushes_and_pops() {
    let mut queue = PriorityWorkQueue::new();
    let mut pushed = 0;
    let mut popped = 0;
    for (i, id) in ["p0", "p1", "p2", "p3", "p4"].iter().enumerate() {
        queue.push(PrioritizedTask::new(id.to_string(), i, i % 2 == 0));
        pushed += 1;
        assert_eq!(queue.len(), pushed - popped);
    }
    let mut blocked = StringSet::new();
    blocked.insert("p4".to_string());
    blocked.insert("p2".to_string());
    while let Some(_) = queue.pop_next_available(&blocked) {
        popped += 1;
        assert_eq!(queue.len(), pushed - popped);
    }
    assert_eq!(queue.len(), 2);
    assert_eq!(queue.pop_next_available(&blocked), None);
    assert_eq!(queue.len(), 2);
    blocked.clear();
    while let Some(_) = queue.pop_next_available(&blocked) {
        popped += 1;
        assert_eq!(queue.len(), pushed - popped);
    }
    assert!(queue.is_empty());
}
