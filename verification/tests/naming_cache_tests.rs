use bkb::booklet::BindingRule;
use bkb::cache::{add_data, clear, get_data, start_booklet, Cache};
use bkb::naming::{booklet_file_paths, booklet_mark, booklet_output_paths, form_xobject_name, two_digit_string};

#[test]
fn file_names_two_digit_numbers() {
    assert_eq!(booklet_file_paths("out", "input", 1, true), vec![String::from("out/input_01.pdf")]);
    assert_eq!(booklet_file_paths("out", "input", 12, true), vec![String::from("out/input_12.pdf")]);
    assert_eq!(booklet_file_paths("/o", "b", 123, true), vec![String::from("/o/b_123.pdf")]);
}

#[test]
fn file_names_hand_turned_print_order() {
    assert_eq!(
        booklet_file_paths("out", "input", 3, false),
        vec![String::from("out/input_03_po2.pdf"), String::from("out/input_03_po1.pdf")]
    );
}

#[test]
fn file_names_from_rule() {
    let rule = BindingRule::new("/docs/book.v2.pdf");
    assert_eq!(booklet_output_paths(&rule, 2), Some(vec![String::from("/docs/out/book_02.pdf")]));
    let rule = BindingRule::new("/docs/book.v2.pdf").set_output_path(&Some(String::from("/x")));
    assert_eq!(booklet_output_paths(&rule, 10), Some(vec![String::from("/x/book_10.pdf")]));
    let mut rule = BindingRule::default();
    rule.input_path = String::from("/");
    assert_eq!(booklet_output_paths(&rule, 1), None);
}

#[test]
fn padded_numbers() {
    assert_eq!(two_digit_string(0), "00");
    assert_eq!(two_digit_string(7), "07");
    assert_eq!(two_digit_string(10), "10");
    assert_eq!(two_digit_string(4096), "4096");
}

#[test]
fn page_marks() {
    assert_eq!(form_xobject_name(12), "_bkb_op_12");
    assert_eq!(form_xobject_name(0), "_bkb_op_0");
    assert_eq!(booklet_mark(3), "^_3_^");
}

#[test]
fn cache_read_after_write() {
    let mut cache = Cache::new();
    assert_eq!(get_data(&cache, "MediaBox"), None);
    add_data(&mut cache, "MediaBox", "0,0,595,842");
    assert_eq!(get_data(&cache, "MediaBox"), Some(String::from("0,0,595,842")));
    assert_eq!(get_data(&cache, "TrimBox"), None);
}

#[test]
fn cache_overwrite_keeps_other_keys() {
    let mut cache = Cache::new();
    add_data(&mut cache, "MediaBox", "a");
    add_data(&mut cache, "TrimBox", "");
    add_data(&mut cache, "MediaBox", "b");
    assert_eq!(get_data(&cache, "MediaBox"), Some(String::from("b")));
    assert_eq!(get_data(&cache, "TrimBox"), Some(String::new()));
}

#[test]
fn cache_clear() {
    let mut cache = Cache::new();
    add_data(&mut cache, "MediaBox", "a");
    clear(&mut cache);
    assert_eq!(get_data(&cache, "MediaBox"), None);
    add_data(&mut cache, "MediaBox", "c");
    assert_eq!(get_data(&cache, "MediaBox"), Some(String::from("c")));
}

#[test]
fn cache_emptied_for_the_first_booklet_only() {
    let mut cache = Cache::new();
    add_data(&mut cache, "MediaBox", "a");
    start_booklet(&mut cache, 2);
    assert_eq!(get_data(&cache, "MediaBox"), Some(String::from("a")));
    start_booklet(&mut cache, 1);
    assert_eq!(get_data(&cache, "MediaBox"), None);
}
