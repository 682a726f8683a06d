use bkb::booklet::{booklet_plan, BindingRule};
use bkb::pdf_creator::{
    arrange_sheet_sides, calc_page_on_sheet, document_sheet_sides, next_object_id, sheet_side_halves, source_page_number,
    HalfPage, OutputDoc, SheetSide, BLANK_PAGE,
};

fn rule(binding_at_middle: bool, has_cover: bool, keep_cover: bool) -> BindingRule {
    BindingRule {
        input_path: String::from("/docs/input.pdf"),
        output_dir: String::from("/docs/out"),
        sheets_per_booklet: 10,
        auto_double_side: true,
        binding_at_middle,
        has_cover,
        keep_cover,
    }
}

#[test]
fn pages_folded_in_the_middle() {
    let pairs = calc_page_on_sheet(8, 8, 0, 8, &rule(true, false, false));
    assert_eq!(pairs, vec![(0, 7), (1, 6), (2, 5), (3, 4)]);
}

#[test]
fn pages_of_a_later_booklet() {
    let pairs = calc_page_on_sheet(16, 16, 8, 16, &rule(true, false, false));
    assert_eq!(pairs, vec![(8, 15), (9, 14), (10, 13), (11, 12)]);
}

#[test]
fn fold_pairs_mirror() {
    for start in 0..20 {
        for len in 0..40 {
            let end = start + len;
            let pairs = calc_page_on_sheet(end, end, start, end, &rule(true, false, false));
            assert_eq!(pairs.len() as i32, len / 2);
            for (k, p) in pairs.iter().enumerate() {
                assert_eq!(p.0, start + k as i32);
                assert_eq!(p.0 + p.1, start + end - 1);
            }
        }
    }
}

#[test]
fn pages_bound_at_edges() {
    let pairs = calc_page_on_sheet(8, 8, 0, 8, &rule(false, false, false));
    assert_eq!(pairs, vec![(0, 4), (1, 5), (2, 6), (3, 7)]);
    let pairs = calc_page_on_sheet(16, 16, 8, 16, &rule(false, false, false));
    assert_eq!(pairs, vec![(8, 12), (9, 13), (10, 14), (11, 15)]);
}

#[test]
fn slots_past_the_last_page_keep_their_index() {
    // indices 6 and 7 are past the document and are printed blank
    let pairs = calc_page_on_sheet(6, 8, 0, 8, &rule(true, false, false));
    assert_eq!(pairs, vec![(0, 7), (1, 6), (2, 5), (3, 4)]);
    let pairs = calc_page_on_sheet(14, 16, 8, 16, &rule(true, false, false));
    assert_eq!(pairs, vec![(8, 15), (9, 14), (10, 13), (11, 12)]);
    assert_eq!(source_page_number(15, 14), None);
}

#[test]
fn pages_with_kept_covers() {
    // the front cover first, a blank behind it; the back cover last, a blank before it
    let pairs = calc_page_on_sheet(6, 8, 0, 8, &rule(true, true, true));
    assert_eq!(pairs, vec![(0, 5), (BLANK_PAGE, BLANK_PAGE), (1, 4), (2, 3)]);
    let pairs = calc_page_on_sheet(10, 12, 0, 12, &rule(true, true, true));
    assert_eq!(pairs, vec![(0, 9), (BLANK_PAGE, BLANK_PAGE), (1, 8), (2, 7), (3, 6), (4, 5)]);
}

#[test]
fn pages_with_kept_covers_bound_at_edges() {
    let r = rule(false, true, true);
    assert_eq!(calc_page_on_sheet(10, 12, 0, 4, &r), vec![(0, 1), (BLANK_PAGE, 2)]);
    assert_eq!(calc_page_on_sheet(10, 12, 4, 8, &r), vec![(3, 5), (4, 6)]);
    assert_eq!(calc_page_on_sheet(10, 12, 8, 12, &r), vec![(7, BLANK_PAGE), (8, 9)]);
}

#[test]
fn pages_with_dropped_covers() {
    // the covers, pages 0 and 11, are not printed
    let pairs = calc_page_on_sheet(12, 12, 0, 12, &rule(true, true, false));
    assert_eq!(
        pairs,
        vec![(1, BLANK_PAGE), (2, BLANK_PAGE), (3, 10), (4, 9), (5, 8), (6, 7)]
    );
    let pairs = calc_page_on_sheet(42, 40, 0, 40, &rule(true, true, false));
    assert_eq!(pairs.len(), 20);
    for (k, p) in pairs.iter().enumerate() {
        assert_eq!(*p, (1 + k as i32, 40 - k as i32));
    }
}

#[test]
fn empty_booklet_has_no_pairs() {
    assert!(calc_page_on_sheet(10, 12, 4, 4, &rule(true, false, false)).is_empty());
    assert!(calc_page_on_sheet(10, 12, 8, 4, &rule(true, false, false)).is_empty());
    assert!(calc_page_on_sheet(10, 12, 5, 6, &rule(false, false, false)).is_empty());
}

#[test]
fn kept_front_cover_whatever_the_page_count() {
    let r = rule(true, true, true);
    let pairs = calc_page_on_sheet(0, 4, 0, 4, &r);
    assert_eq!(pairs[0].0, 0);
    assert_eq!(pairs[1].0, BLANK_PAGE);
    assert_eq!(source_page_number(0, 0), None);
}

#[test]
fn shifted_booklet_shifts_its_pairs() {
    for middle in [true, false] {
        let r = rule(middle, false, false);
        let base = calc_page_on_sheet(8, 8, 0, 8, &r);
        let shifted = calc_page_on_sheet(26, 28, 24, 32, &r);
        let moved: Vec<(i32, i32)> = base.iter().map(|p| (p.0 + 24, p.1 + 24)).collect();
        assert_eq!(shifted, moved);
    }
}

fn side(doc: OutputDoc, page_pair: (i32, i32), is_sheet_back: bool) -> SheetSide {
    SheetSide { doc, page_pair, is_sheet_back }
}

#[test]
fn sides_printed_on_both_sides() {
    let pairs = vec![(0, 7), (1, 6), (2, 5), (3, 4)];
    let sides = arrange_sheet_sides(&pairs, true);
    assert_eq!(
        sides,
        vec![
            side(OutputDoc::Booklet, (0, 7), false),
            side(OutputDoc::Booklet, (1, 6), true),
            side(OutputDoc::Booklet, (2, 5), false),
            side(OutputDoc::Booklet, (3, 4), true),
        ]
    );
}

#[test]
fn sides_turned_by_hand() {
    let pairs = vec![(0, 7), (1, 6), (2, 5), (3, 4)];
    let sides = arrange_sheet_sides(&pairs, false);
    assert_eq!(
        sides,
        vec![
            side(OutputDoc::Front, (0, 7), false),
            side(OutputDoc::Front, (2, 5), false),
            side(OutputDoc::Back, (3, 4), true),
            side(OutputDoc::Back, (1, 6), true),
        ]
    );
    let sides = arrange_sheet_sides(&vec![(0, 9), (1, 8), (2, 7)], false);
    assert_eq!(
        sides,
        vec![
            side(OutputDoc::Front, (0, 9), false),
            side(OutputDoc::Front, (2, 7), false),
            side(OutputDoc::Back, (1, 8), true),
        ]
    );
    assert!(arrange_sheet_sides(&vec![], false).is_empty());
}

#[test]
fn every_pair_printed_once_either_way() {
    let pairs: Vec<(i32, i32)> = (0..12).map(|k| (k, 23 - k)).collect();
    for auto in [true, false] {
        let sides = arrange_sheet_sides(&pairs, auto);
        assert_eq!(sides.len(), pairs.len());
        let mut seen: Vec<(i32, i32)> = sides.iter().map(|s| s.page_pair).collect();
        seen.sort();
        assert_eq!(seen, pairs);
        for s in &sides {
            let k = pairs.iter().position(|p| *p == s.page_pair).unwrap();
            assert_eq!(s.is_sheet_back, k % 2 == 1);
        }
    }
}

#[test]
fn halves_of_a_sheet_side() {
    let (l, r) = sheet_side_halves((0, 7), true, false);
    assert_eq!(l, HalfPage { page_num: 7, left: true, rotate_180: false });
    assert_eq!(r, HalfPage { page_num: 0, left: false, rotate_180: false });
    let (l, r) = sheet_side_halves((1, 6), true, true);
    assert_eq!(l, HalfPage { page_num: 6, left: true, rotate_180: true });
    assert_eq!(r, HalfPage { page_num: 1, left: false, rotate_180: true });
    let (l, r) = sheet_side_halves((0, 3), false, false);
    assert!(!l.rotate_180);
    assert!(r.rotate_180);
    let (l, r) = sheet_side_halves((1, 4), false, true);
    assert!(l.rotate_180);
    assert!(!r.rotate_180);
}

#[test]
fn source_pages_numbered_from_one() {
    assert_eq!(source_page_number(0, 5), Some(1));
    assert_eq!(source_page_number(4, 5), Some(5));
    assert_eq!(source_page_number(5, 5), None);
    assert_eq!(source_page_number(-1, 5), None);
    assert_eq!(source_page_number(BLANK_PAGE, 5), None);
}

#[test]
fn fresh_object_ids() {
    assert_eq!(next_object_id(&vec![3, 9, 2]), 10);
    assert_eq!(next_object_id(&vec![]), 1);
    assert_eq!(next_object_id(&vec![0]), 1);
}

#[test]
fn plan_booklets_fill_whole_sheets() {
    for pages in 1usize..200 {
        let r = rule(true, false, false);
        let plan = booklet_plan(pages, &r);
        let total = plan[plan.len() - 1].end_slot;
        for b in &plan {
            let pairs = calc_page_on_sheet(pages as i32, total, b.start_slot, b.end_slot, &r);
            assert_eq!(pairs.len() % 2, 0);
            assert_eq!(pairs.len() as i32, (b.end_slot - b.start_slot) / 2);
            let sides = arrange_sheet_sides(&pairs, true);
            assert_eq!(sides.len(), pairs.len());
        }
    }
}

fn rule_with(sheets: usize, middle: bool, has_cover: bool, keep_cover: bool) -> BindingRule {
    BindingRule { sheets_per_booklet: sheets, ..rule(middle, has_cover, keep_cover) }
}

#[test]
fn every_page_printed_exactly_once() {
    let modes = [(false, false), (true, false), (true, true)];
    for pages in 0usize..120 {
        for sheets in 1usize..6 {
            for middle in [true, false] {
                for (has_cover, keep_cover) in modes {
                    if has_cover && !keep_cover && pages < 2 {
                        continue;
                    }
                    let r = rule_with(sheets, middle, has_cover, keep_cover);
                    let plan = booklet_plan(pages, &r);
                    let total = plan.last().map(|b| b.end_slot).unwrap_or(0);
                    let mut printed: Vec<i32> = Vec::new();
                    for b in &plan {
                        for p in calc_page_on_sheet(pages as i32, total, b.start_slot, b.end_slot, &r) {
                            for page in [p.0, p.1] {
                                if 0 <= page && page < pages as i32 {
                                    printed.push(page);
                                }
                            }
                        }
                    }
                    printed.sort();
                    let expected: Vec<i32> = if has_cover && !keep_cover {
                        (1..pages as i32 - 1).collect()
                    } else {
                        (0..pages as i32).collect()
                    };
                    assert_eq!(printed, expected, "{} pages, {} sheets", pages, sheets);
                }
            }
        }
    }
}

#[test]
fn kept_covers_outside_the_first_and_last_booklet() {
    for pages in 2usize..60 {
        let r = rule_with(2, true, true, true);
        let plan = booklet_plan(pages, &r);
        let total = plan[plan.len() - 1].end_slot;
        let first = calc_page_on_sheet(pages as i32, total, plan[0].start_slot, plan[0].end_slot, &r);
        assert_eq!(first[0].0, 0);
        assert_eq!(first[1].0, BLANK_PAGE);
        let last_b = &plan[plan.len() - 1];
        let last = calc_page_on_sheet(pages as i32, total, last_b.start_slot, last_b.end_slot, &r);
        assert_eq!(last[0].1, pages as i32 - 1);
        assert_eq!(last[1].1, BLANK_PAGE);
    }
}

#[test]
fn document_sides_booklet_by_booklet() {
    for (has_cover, keep_cover) in [(false, false), (true, false), (true, true)] {
        for auto in [true, false] {
            let r = BindingRule { auto_double_side: auto, ..rule_with(2, false, has_cover, keep_cover) };
            let pages = 37usize;
            let plan = booklet_plan(pages, &r);
            let total = plan[plan.len() - 1].end_slot;
            let sides = document_sheet_sides(pages, &r);
            assert_eq!(sides.len(), plan.len());
            for (b, s) in plan.iter().zip(sides.iter()) {
                let pairs = calc_page_on_sheet(pages as i32, total, b.start_slot, b.end_slot, &r);
                assert_eq!(*s, arrange_sheet_sides(&pairs, auto));
            }
        }
    }
    let sides = document_sheet_sides(8, &rule(true, false, false));
    assert_eq!(
        sides,
        vec![vec![
            side(OutputDoc::Booklet, (0, 7), false),
            side(OutputDoc::Booklet, (1, 6), true),
            side(OutputDoc::Booklet, (2, 5), false),
            side(OutputDoc::Booklet, (3, 4), true),
        ]]
    );
    assert!(document_sheet_sides(0, &rule(true, false, false)).is_empty());
}
