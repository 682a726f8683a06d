use bkb::tasks::{row_to_change, task_binding_rule, tasks_to_start};

#[test]
fn start_all_enabled_rows() {
    assert_eq!(tasks_to_start(-1, &vec![true, false, true, true]), vec![0, 2, 3]);
    assert_eq!(tasks_to_start(-5, &vec![false, false]), Vec::<usize>::new());
}

#[test]
fn start_one_row() {
    assert_eq!(tasks_to_start(1, &vec![true, false, true]), vec![1]);
    assert_eq!(tasks_to_start(0, &vec![true]), vec![0]);
}

#[test]
fn start_outside_the_list() {
    assert_eq!(tasks_to_start(3, &vec![true, true, true]), Vec::<usize>::new());
    assert_eq!(tasks_to_start(4, &vec![true, true, true]), Vec::<usize>::new());
    assert_eq!(tasks_to_start(-1, &vec![]), Vec::<usize>::new());
    assert_eq!(tasks_to_start(0, &vec![]), Vec::<usize>::new());
}

#[test]
fn row_rule_needs_paths() {
    assert!(task_binding_rule("", "/out", false, false, true, 10, true).is_none());
    assert!(task_binding_rule("/a.pdf", "", false, false, true, 10, true).is_none());
    let r = task_binding_rule("/a.pdf", "/out", true, false, false, 8, false).unwrap();
    assert_eq!(r.input_path, "/a.pdf");
    assert_eq!(r.output_dir, "/out");
    assert_eq!(r.sheets_per_booklet, 8);
    assert!(r.has_cover && !r.keep_cover && !r.auto_double_side && !r.binding_at_middle);
}

#[test]
fn change_existing_row_only() {
    assert_eq!(row_to_change(0, 3), Some(0));
    assert_eq!(row_to_change(2, 3), Some(2));
    assert_eq!(row_to_change(3, 3), None);
    assert_eq!(row_to_change(4, 3), None);
    assert_eq!(row_to_change(-1, 3), None);
    assert_eq!(row_to_change(0, 0), None);
}
