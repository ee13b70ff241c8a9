use peabody::ops::stack::{Call, ManualStack, Task};
use peabody::BddPointer;

fn task(l: usize, r: usize) -> Task {
    Task { left: BddPointer(l), right: BddPointer(r) }
}

#[test]
fn frames_resume_with_the_results_of_their_subtasks() {
    let root = task(5, 6);
    let mut stack = ManualStack::new(root, 4);
    let (t, st) = stack.handle().unwrap();
    assert_eq!(t, root);
    assert_eq!(st.stage, 0);
    assert_eq!(st.first, None);
    assert_eq!(st.second, None);
    stack.call(1, task(3, 4), Some(task(2, 4)));
    let (t, _) = stack.handle().unwrap();
    assert_eq!(t, task(3, 4));
    stack.ret(BddPointer(7));
    let (t, st) = stack.handle().unwrap();
    assert_eq!(t, task(2, 4));
    assert_eq!(st.stage, 0);
    stack.ret(BddPointer(1));
    let (t, st) = stack.handle().unwrap();
    assert_eq!(t, root);
    assert_eq!(st.stage, 1);
    assert_eq!(st.first, Some(BddPointer(7)));
    assert_eq!(st.second, Some(BddPointer(1)));
    stack.pump_stage();
    let (_, st) = stack.handle().unwrap();
    assert_eq!(st.stage, 2);
    stack.ret(BddPointer(9));
    assert!(stack.handle().is_none());
}

#[test]
fn finished_tasks_are_not_run_twice() {
    let root = task(8, 9);
    let mut stack = ManualStack::new(root, 0);
    stack.handle().unwrap();
    // Both subtasks are the same task: once it is finished, its second frame is dropped.
    stack.call(1, task(2, 3), Some(task(2, 3)));
    let (t, _) = stack.handle().unwrap();
    assert_eq!(t, task(2, 3));
    stack.ret(BddPointer(0));
    let (t, st) = stack.handle().unwrap();
    assert_eq!(t, root);
    assert_eq!(st.first, Some(BddPointer(0)));
    assert_eq!(st.second, Some(BddPointer(0)));
}

#[test]
fn a_new_call_waits_for_nothing() {
    let call = Call::new(task(1, 0));
    assert_eq!(call.task, task(1, 0));
    assert_eq!(call.state.stage, 0);
    assert!(call.state.first.is_none());
    assert!(call.state.second.is_none());
}
