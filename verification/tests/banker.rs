use lib::banker::{detect_deadlock, ResourceTable};

fn table(available: Vec<usize>, allocation: Vec<Vec<usize>>, need: Vec<Vec<usize>>) -> ResourceTable {
    ResourceTable { available, allocation, need }
}

#[test]
fn crossed_holds_deadlock() {
    // task 0 holds mutex 0 and waits for mutex 1; task 1 holds mutex 1 and asks for mutex 0
    let t = table(vec![0, 0], vec![vec![1, 0], vec![0, 1]], vec![vec![0, 1], vec![0, 0]]);
    assert!(detect_deadlock(&t, 1, 0));
}

#[test]
fn waiting_for_a_holder_that_can_finish_is_safe() {
    // task 0 asks for mutex 1, held by task 1, which waits for nothing
    let t = table(vec![1, 0], vec![vec![0, 0], vec![0, 1]], vec![vec![0, 0], vec![0, 0]]);
    assert!(!detect_deadlock(&t, 0, 1));
}

#[test]
fn no_resources_never_deadlock() {
    let t = table(vec![], vec![], vec![vec![0]]);
    assert!(!detect_deadlock(&t, 0, 0));
    let t = table(vec![], vec![vec![5], vec![7]], vec![vec![3], vec![9]]);
    assert!(!detect_deadlock(&t, 1, 0));
}

#[test]
fn fewer_tasks_than_resources_is_reported() {
    // the check wants as many tasks as there are resources to finish in turn
    let t = table(vec![1, 1], vec![vec![0, 0]], vec![vec![0, 0]]);
    assert!(detect_deadlock(&t, 0, 0));
}

#[test]
fn all_fit_with_enough_tasks_is_safe() {
    let t = table(
        vec![2, 1],
        vec![vec![0, 0], vec![1, 0], vec![0, 0]],
        vec![vec![1, 1], vec![0, 0], vec![2, 0]],
    );
    assert!(!detect_deadlock(&t, 0, 0));
}

#[test]
fn request_no_release_can_cover_deadlocks() {
    // task 1 asks for a unit that nobody can free before it
    let t = table(vec![0], vec![vec![1], vec![1]], vec![vec![2], vec![0]]);
    assert!(detect_deadlock(&t, 1, 0));
}

#[test]
fn one_finishing_task_suffices_for_one_resource() {
    // task 0 can never get three units, but task 1 can finish, and there is one resource
    let t = table(vec![0], vec![vec![1], vec![1]], vec![vec![2], vec![0]]);
    assert!(!detect_deadlock(&t, 0, 0));
}

#[test]
fn released_units_let_later_tasks_finish() {
    // task 2 can only run after task 1 (which holds what it needs) has finished
    let t = table(
        vec![0, 0],
        vec![vec![0, 0], vec![1, 1], vec![0, 0]],
        vec![vec![5, 5], vec![0, 0], vec![1, 1]],
    );
    assert!(!detect_deadlock(&t, 0, 0));
    let t = table(
        vec![0, 0],
        vec![vec![0, 0], vec![1, 0], vec![0, 0]],
        vec![vec![5, 5], vec![0, 1], vec![1, 1]],
    );
    assert!(detect_deadlock(&t, 2, 0));
}
