use bkb::booklet::{booklet_plan, calc_booklet_sheets, BindingRule, BookletConfig, BookletSpan};

fn config(booklet_sheets: u32, add_sheet_booklet_count: u32, tail_pad_page: u32) -> BookletConfig {
    BookletConfig { booklet_sheets, add_sheet_booklet_count, tail_pad_page }
}

fn span(booklet_num: i32, is_last_booklet: bool, start_slot: i32, end_slot: i32) -> BookletSpan {
    BookletSpan { booklet_num, is_last_booklet, start_slot, end_slot }
}

fn rule(sheets: usize, has_cover: bool, keep_cover: bool) -> BindingRule {
    BindingRule {
        input_path: String::from("/docs/input.pdf"),
        output_dir: String::from("/docs/out"),
        sheets_per_booklet: sheets,
        auto_double_side: true,
        binding_at_middle: true,
        has_cover,
        keep_cover,
    }
}

#[test]
fn sheets_exact_booklets() {
    assert_eq!(calc_booklet_sheets(40, 10, false, false), config(10, 0, 0));
    assert_eq!(calc_booklet_sheets(80, 10, false, false), config(10, 0, 0));
}

#[test]
fn sheets_spread_over_first_booklets() {
    // 44 pages: one full booklet of 40 and one sheet left, given to booklet 1
    assert_eq!(calc_booklet_sheets(44, 10, false, false), config(10, 1, 0));
    // 88 pages: two booklets and two sheets left
    assert_eq!(calc_booklet_sheets(88, 10, false, false), config(10, 2, 0));
}

#[test]
fn sheets_split_evenly() {
    // 50 pages -> 52 aligned; remainder 12 pages is 3 sheets > 1 booklet
    // and under 3/4 of a booklet: two booklets of 6 sheets, one extra sheet
    assert_eq!(calc_booklet_sheets(50, 10, false, false), config(6, 1, 2));
}

#[test]
fn sheets_short_last_booklet() {
    // 70 pages -> 72; remainder 32 is at least 3/4 of a booklet of 40
    assert_eq!(calc_booklet_sheets(70, 10, false, false), config(10, 0, 2));
}

#[test]
fn sheets_alignment_to_four_pages() {
    for pages in 1u32..200 {
        let c = calc_booklet_sheets(pages, 10, false, false);
        assert!(c.tail_pad_page < 4);
        assert_eq!((pages + c.tail_pad_page) % 4, 0);
        assert!(c.booklet_sheets >= 1 && c.booklet_sheets <= 10);
    }
}

#[test]
fn sheets_with_covers() {
    // kept covers add a blank page behind each: 10 + 2 = 12 pages
    assert_eq!(calc_booklet_sheets(10, 10, true, true), config(3, 0, 0));
    // dropped covers take two pages off: 10 - 2 = 8 pages
    assert_eq!(calc_booklet_sheets(10, 10, true, false), config(2, 0, 0));
    assert_eq!(calc_booklet_sheets(11, 10, true, true), config(4, 0, 3));
}

#[test]
fn plan_one_booklet() {
    let plan = booklet_plan(40, &rule(10, false, false));
    assert_eq!(plan, vec![span(1, true, 0, 40)]);
}

#[test]
fn plan_with_extra_sheet() {
    // config (6, 1, 2): the first booklet holds 28 pages, the last runs to 50 + 2
    let plan = booklet_plan(50, &rule(10, false, false));
    assert_eq!(plan, vec![span(1, false, 0, 28), span(2, true, 28, 52)]);
}

#[test]
fn plan_short_last_booklet() {
    let plan = booklet_plan(70, &rule(10, false, false));
    assert_eq!(plan, vec![span(1, false, 0, 40), span(2, true, 40, 72)]);
}

#[test]
fn plan_dropped_covers() {
    // the body is the 10 pages between the covers, aligned to 12 slots
    let plan = booklet_plan(12, &rule(10, true, false));
    assert_eq!(plan, vec![span(1, true, 0, 12)]);
    // 42 pages: a body of 40 pages fills one booklet of 10 sheets exactly
    let plan = booklet_plan(42, &rule(10, true, false));
    assert_eq!(plan, vec![span(1, true, 0, 40)]);
}

#[test]
fn plan_kept_covers() {
    // 10 pages and the blank backs of the two covers: 12 slots
    let plan = booklet_plan(10, &rule(10, true, true));
    assert_eq!(plan, vec![span(1, true, 0, 12)]);
    let plan = booklet_plan(10, &rule(1, true, true));
    assert_eq!(plan, vec![span(1, false, 0, 4), span(2, false, 4, 8), span(3, true, 8, 12)]);
}

#[test]
fn plan_is_contiguous_and_covers_all_pages() {
    for pages in 1usize..300 {
        for sheets in 1usize..12 {
            let plan = booklet_plan(pages, &rule(sheets, false, false));
            assert!(!plan.is_empty());
            assert_eq!(plan[0].start_slot, 0);
            for (i, s) in plan.iter().enumerate() {
                assert_eq!(s.booklet_num as usize, i + 1);
                assert!(s.start_slot < s.end_slot);
                if i > 0 {
                    assert_eq!(s.start_slot, plan[i - 1].end_slot);
                    assert_eq!(s.start_slot % 4, 0);
                }
            }
            assert!(plan[plan.len() - 1].end_slot as usize >= pages);
        }
    }
}

#[test]
fn plan_empty_document() {
    assert!(booklet_plan(0, &rule(10, false, false)).is_empty());
}

#[test]
fn rule_default_values() {
    let r = BindingRule::default();
    assert_eq!(r.input_path, "");
    assert_eq!(r.output_dir, "");
    assert_eq!(r.sheets_per_booklet, 10);
    assert!(r.auto_double_side);
    assert!(r.binding_at_middle);
    assert!(!r.has_cover);
    assert!(!r.keep_cover);
}

#[test]
fn rule_new_writes_beside_input() {
    let r = BindingRule::new("/docs/books/input.pdf");
    assert_eq!(r.input_path, "/docs/books/input.pdf");
    assert_eq!(r.output_dir, "/docs/books/out");
    assert_eq!(r.sheets_per_booklet, 10);
    assert!(r.auto_double_side && r.binding_at_middle && !r.has_cover && !r.keep_cover);
}

#[test]
fn rule_new_relative_file() {
    let r = BindingRule::new("input.pdf");
    assert_eq!(r.output_dir, "out");
}

#[test]
fn rule_try_new_without_parent() {
    assert!(BindingRule::try_new("/").is_none());
    assert!(BindingRule::try_new("").is_none());
    let r = BindingRule::try_new("/a/b.pdf").unwrap();
    assert_eq!(r.output_dir, "/a/out");
}

#[test]
fn rule_set_output_path() {
    let r = BindingRule::new("/docs/input.pdf").set_output_path(&Some(String::from("/elsewhere")));
    assert_eq!(r.output_dir, "/elsewhere");
    assert_eq!(r.input_path, "/docs/input.pdf");
    let r = BindingRule::new("/docs/input.pdf").set_output_path(&None);
    assert_eq!(r.output_dir, "/docs/out");
}
