use td::errors::TdError;
use td::tasks::TaskList;

fn sample(texts: &[&str]) -> TaskList {
    let mut list = TaskList::new();
    for t in texts {
        list.add_task(t.to_string());
    }
    list
}

fn snapshot(list: &TaskList) -> Vec<(usize, bool, String)> {
    list.list_tasks()
}

#[test]
fn new_list_is_empty() {
    let list = TaskList::new();
    assert_eq!(list.count_tasks(), 0);
    assert_eq!(list.count_undone(), 0);
    assert!(list.list_tasks().is_empty());
}

#[test]
fn add_appends_undone_tasks_in_order() {
    let list = sample(&["one", "two", "three"]);
    let rows = snapshot(&list);
    assert_eq!(
        rows,
        vec![
            (1, false, "one".to_string()),
            (2, false, "two".to_string()),
            (3, false, "three".to_string()),
        ]
    );
}

#[test]
fn remove_many_two_two_four_on_five() {
    let mut list = sample(&["a", "b", "c", "d", "e"]);
    let r = list.remove_tasks(&[2, 2, 4]);
    assert_eq!(r, Ok(()));
    let rows = snapshot(&list);
    assert_eq!(
        rows,
        vec![
            (1, false, "a".to_string()),
            (2, false, "c".to_string()),
            (3, false, "e".to_string()),
        ]
    );
}

#[test]
fn remove_empty_batch_is_a_noop_success() {
    let mut list = sample(&["a", "b"]);
    let before = snapshot(&list);
    assert_eq!(list.remove_tasks(&[]), Ok(()));
    assert_eq!(snapshot(&list), before);
}

#[test]
fn remove_rejects_whole_batch_on_one_bad_index() {
    let mut list = sample(&["a", "b", "c"]);
    let before = snapshot(&list);
    assert_eq!(list.remove_tasks(&[1, 4]), Err(TdError::InvalidIndex));
    assert_eq!(list.remove_tasks(&[0]), Err(TdError::InvalidIndex));
    assert_eq!(snapshot(&list), before);
}

#[test]
fn mark_done_is_idempotent() {
    let mut list = sample(&["a", "b"]);
    assert_eq!(list.mark_done(2), Ok(()));
    let once = snapshot(&list);
    assert_eq!(list.mark_done(2), Ok(()));
    assert_eq!(snapshot(&list), once);
    assert_eq!(once[1].1, true);
    assert_eq!(once[0].1, false);
}

#[test]
fn mark_undone_is_idempotent() {
    let mut list = sample(&["a", "b"]);
    assert_eq!(list.mark_done(1), Ok(()));
    assert_eq!(list.mark_undone(1), Ok(()));
    let once = snapshot(&list);
    assert_eq!(list.mark_undone(1), Ok(()));
    assert_eq!(snapshot(&list), once);
    assert_eq!(once[0].1, false);
}

#[test]
fn mark_rejects_bad_indices() {
    let mut list = sample(&["a"]);
    assert_eq!(list.mark_done(0), Err(TdError::InvalidIndex));
    assert_eq!(list.mark_done(2), Err(TdError::InvalidIndex));
    assert_eq!(list.mark_undone(0), Err(TdError::InvalidIndex));
    assert_eq!(list.mark_undone(2), Err(TdError::InvalidIndex));
    assert_eq!(snapshot(&list), vec![(1, false, "a".to_string())]);
}

#[test]
fn edit_changes_only_the_text_at_that_position() {
    let mut list = sample(&["a", "b", "c"]);
    assert_eq!(list.mark_done(2), Ok(()));
    assert_eq!(list.edit_task(2, "B".to_string()), Ok(()));
    let rows = snapshot(&list);
    assert_eq!(
        rows,
        vec![
            (1, false, "a".to_string()),
            (2, true, "B".to_string()),
            (3, false, "c".to_string()),
        ]
    );
}

#[test]
fn edit_rejects_zero_and_past_the_end() {
    let mut list = sample(&["a", "b"]);
    let before = snapshot(&list);
    assert_eq!(list.edit_task(0, "x".to_string()), Err(TdError::InvalidIndex));
    assert_eq!(list.edit_task(3, "x".to_string()), Err(TdError::InvalidIndex));
    assert_eq!(snapshot(&list), before);
}

#[test]
fn count_undone_counts_only_open_tasks() {
    let mut list = sample(&["a", "b", "c", "d"]);
    assert_eq!(list.mark_done(1), Ok(()));
    assert_eq!(list.mark_done(4), Ok(()));
    // done flags now [true, false, false, true]
    assert_eq!(list.count_undone(), 2);
    assert_eq!(list.count_tasks(), 4);
}

#[test]
fn clone_copies_content() {
    let mut list = sample(&["a", "b"]);
    list.mark_done(1).unwrap();
    let copy = list.clone();
    assert_eq!(snapshot(&copy), snapshot(&list));
}
