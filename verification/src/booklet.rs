use vstd::prelude::*;

use crate::paths::{path_join, path_join_of, path_parent, path_parent_of};

verus! {

/// How a document is to be bound into booklets.
#[derive(Debug)]
pub struct BindingRule {
    /// Path of the input document.
    pub input_path: String,
    /// Directory the booklets are written to (by default the `out` folder
    /// beside the input document).
    pub output_dir: String,
    /// Sheets in a booklet (each sheet holds four pages).
    pub sheets_per_booklet: usize,
    /// Whether the printer prints both sides itself. If not, the fronts and
    /// the backs of the sheets go to two files printed one after the other.
    pub auto_double_side: bool,
    /// Bound in the middle (folded booklets) rather than at the edges.
    pub binding_at_middle: bool,
    /// Whether the first and the last page are a front and a back cover.
    pub has_cover: bool,
    /// Whether the covers are printed (else only the body is).
    pub keep_cover: bool,
}

impl Default for BindingRule {
    fn default() -> (rule: Self)
        ensures
            rule.input_path@ == Seq::<char>::empty(),
            rule.output_dir@ == Seq::<char>::empty(),
            rule.sheets_per_booklet == 10,
            rule.auto_double_side,
            rule.binding_at_middle,
            !rule.has_cover,
            !rule.keep_cover,
    {
        BindingRule {
            input_path: String::new(),
            output_dir: String::new(),
            sheets_per_booklet: 10,
            auto_double_side: true,
            binding_at_middle: true,
            has_cover: false,
            keep_cover: false,
        }
    }
}

impl BindingRule {
    /// The default rule for the document at `input_path`, writing into the
    /// `out` folder beside it.
    pub fn new(input_path: &str) -> (rule: Self)
        requires
            path_parent_of(input_path@) is Some,
        ensures
            rule.input_path@ == input_path@,
            rule.output_dir@ == path_join_of(path_parent_of(input_path@)->0, "out"@),
            rule.sheets_per_booklet == 10,
            rule.auto_double_side,
            rule.binding_at_middle,
            !rule.has_cover,
            !rule.keep_cover,
    {
        let parent = path_parent(input_path);
        let parent = match parent {
            Some(p) => p,
            None => String::new(),
        };
        let output_dir = path_join(parent.as_str(), "out");
        BindingRule {
            input_path: String::from_str(input_path),
            output_dir,
            sheets_per_booklet: 10,
            auto_double_side: true,
            binding_at_middle: true,
            has_cover: false,
            keep_cover: false,
        }
    }

    /// [`BindingRule::new`] where the input path has a parent directory, and
    /// `None` where it has none (a root or an empty path).
    pub fn try_new(input_path: &str) -> (rule: Option<Self>)
        ensures
            rule is Some <==> path_parent_of(input_path@) is Some,
            rule matches Some(r) ==> {
                &&& r.input_path@ == input_path@
                &&& r.output_dir@ == path_join_of(path_parent_of(input_path@)->0, "out"@)
                &&& r.sheets_per_booklet == 10
                &&& r.auto_double_side
                &&& r.binding_at_middle
                &&& !r.has_cover
                &&& !r.keep_cover
            },
    {
        match path_parent(input_path) {
            Some(_) => Some(BindingRule::new(input_path)),
            None => None,
        }
    }

    /// The same rule, writing into `out_path` where one is given.
    pub fn set_output_path(self, out_path: &Option<String>) -> (rule: Self)
        ensures
            rule.output_dir@ == (match out_path {
                Some(p) => p@,
                None => self.output_dir@,
            }),
            rule.input_path@ == self.input_path@,
            rule.sheets_per_booklet == self.sheets_per_booklet,
            rule.auto_double_side == self.auto_double_side,
            rule.binding_at_middle == self.binding_at_middle,
            rule.has_cover == self.has_cover,
            rule.keep_cover == self.keep_cover,
    {
        let mut rule = self;
        match out_path {
            Some(path) => {
                rule.output_dir = path.clone();
            },
            None => {},
        }
        rule
    }
}

/// How the sheets of a document are shared out among its booklets.
#[derive(Debug, Clone, Copy, PartialEq, Eq)]
pub struct BookletConfig {
    /// Sheets in an ordinary booklet.
    pub booklet_sheets: u32,
    /// How many booklets, counted from the first, get one sheet more.
    pub add_sheet_booklet_count: u32,
    /// Blank pages appended after the last page to fill the last sheet.
    pub tail_pad_page: u32,
}

/// The number of pages to lay out once the cover is accounted for: a kept
/// cover adds a blank page behind the front and the back cover, a dropped
/// cover removes the first and the last page.
pub open spec fn adjusted_page_count(page_count: int, has_cover: bool, keep_cover: bool) -> int {
    if has_cover {
        if keep_cover {
            page_count + 2
        } else {
            page_count - 2
        }
    } else {
        page_count
    }
}

/// `pages` rounded up to a whole number of sheets (four pages a sheet).
pub open spec fn aligned_page_count(pages: int) -> int {
    ((pages + 3) / 4) * 4
}

/// The sharing out computed by [`calc_booklet_sheets`], as
/// `(booklet_sheets, add_sheet_booklet_count, tail_pad_page)`.
///
/// With `total` pages after alignment and `per = 4 * sheets_per_booklet`,
/// there are `total / per` full booklets and a remainder of `total % per`
/// pages. When the remainder holds no more sheets than there are full
/// booklets, it is spread over the first booklets, one sheet each. Else, when
/// the remainder is under three quarters of a booklet, one booklet more is
/// made and the sheets are spread evenly, the first booklets taking the
/// sheets left over. Else the remainder stays a short last booklet.
pub open spec fn booklet_config_spec(
    page_count: int,
    sheets_per_booklet: int,
    has_cover: bool,
    keep_cover: bool,
) -> (int, int, int) {
    let pages = adjusted_page_count(page_count, has_cover, keep_cover);
    let total = aligned_page_count(pages);
    let tail = total - pages;
    let per = sheets_per_booklet * 4;
    let full = total / per;
    let rest = total % per;
    if rest / 4 <= full {
        (sheets_per_booklet, rest / 4, tail)
    } else if rest * 4 < per * 3 {
        let count = full + 1;
        let sheets = total / count / 4;
        (sheets, (total - sheets * 4 * count) / 4, tail)
    } else {
        (sheets_per_booklet, 0, tail)
    }
}

/// The inputs on which [`calc_booklet_sheets`] is defined: at least one sheet
/// a booklet, a page count that the cover adjustment and the alignment keep
/// within `u32`, and pages per booklet within `u32`.
pub open spec fn calc_booklet_sheets_domain(
    page_count: int,
    sheets_per_booklet: int,
    has_cover: bool,
    keep_cover: bool,
) -> bool {
    &&& 1 <= sheets_per_booklet
    &&& sheets_per_booklet * 4 <= u32::MAX
    &&& 0 <= adjusted_page_count(page_count, has_cover, keep_cover)
    &&& adjusted_page_count(page_count, has_cover, keep_cover) + 3 <= u32::MAX
}


/// One booklet of the plan: its number (from 1), whether it is the last one,
/// and the half-open range `[start_slot, end_slot)` of the slots it holds.
///
/// The slots are the pages laid out for printing, in reading order: the pages
/// of the document with the blank pages that covers and the filling of the
/// last sheet add (see `slot_page` in `pdf_creator`).
#[derive(Debug, Clone, Copy, PartialEq, Eq)]
pub struct BookletSpan {
    pub booklet_num: i32,
    pub is_last_booklet: bool,
    pub start_slot: i32,
    pub end_slot: i32,
}

/// A span as plain integers: `(booklet_num, is_last_booklet, start_slot, end_slot)`.
pub open spec fn span_model(span: BookletSpan) -> (int, bool, int, int) {
    (span.booklet_num as int, span.is_last_booklet, span.start_slot as int, span.end_slot as int)
}

/// The number of slots laid out for a document of `page_count` pages: the
/// pages after the cover adjustment, filled up to whole sheets.
pub open spec fn slot_count(page_count: int, has_cover: bool, keep_cover: bool) -> int {
    aligned_page_count(adjusted_page_count(page_count, has_cover, keep_cover))
}

/// The slots a booklet with index `idx` (from 0) holds when it is not cut by
/// the end: four a sheet, one sheet more for the first `add` booklets.
pub open spec fn booklet_len(config: (int, int, int), idx: int) -> int {
    config.0 * 4 + (if idx < config.1 { 4int } else { 0int })
}

/// The booklets from the one with index `idx`, starting at slot `start`, to
/// the end `total` of the slots. Each takes [`booklet_len`] slots; the last is
/// cut at `total`.
pub open spec fn spans_from(config: (int, int, int), total: int, idx: int, start: int) -> Seq<
    (int, bool, int, int),
>
    decreases (if total > start { total - start } else { 0 }),
{
    if start >= total {
        Seq::empty()
    } else {
        let reach = start + booklet_len(config, idx);
        let end = if reach >= total { total } else { reach };
        if end <= start {
            seq![(idx + 1, true, start, end)]
        } else {
            seq![(idx + 1, end == total, start, end)] + spans_from(config, total, idx + 1, end)
        }
    }
}

/// The booklets of a document of `page_count` pages under `rule`, as made by
/// [`booklet_plan`]: the slots `[0, slot_count)` cut into booklets with the
/// sheet sharing of [`calc_booklet_sheets`].
pub open spec fn booklet_plan_spec(page_count: int, rule: BindingRule) -> Seq<(int, bool, int, int)> {
    let hc = rule.has_cover;
    let kc = rule.keep_cover;
    let config = booklet_config_spec(page_count, rule.sheets_per_booklet as int, hc, kc);
    spans_from(config, slot_count(page_count, hc, kc), 0, 0)
}

/// The size of each booklet of a plan, with `(sheets, add, _)` the sharing
/// of [`calc_booklet_sheets`]: a booklet that is not the last holds `sheets`
/// sheets (four slots each), one sheet more when its index (from 0) is below
/// `add`, and no more; the last holds at most as much. So no booklet holds
/// more than `sheets + 1` sheets.
pub proof fn lemma_plan_booklet_sizes(page_count: int, rule: BindingRule)
    requires
        booklet_plan_domain(page_count, rule),
    ensures
        ({
            let s = booklet_plan_spec(page_count, rule);
            let (sheets, add, tail) = booklet_config_spec(
                page_count,
                rule.sheets_per_booklet as int,
                rule.has_cover,
                rule.keep_cover,
            );
            &&& forall|i: int|
                0 <= i < s.len() - 1 ==> #[trigger] s[i].3 - s[i].2 == 4 * sheets + (if i < add {
                    4int
                } else {
                    0int
                })
            &&& forall|i: int|
                0 <= i < s.len() ==> 0 < #[trigger] s[i].3 - s[i].2 <= 4 * sheets + (if i < add {
                    4int
                } else {
                    0int
                })
            &&& forall|i: int| 0 <= i < s.len() ==> #[trigger] s[i].3 - s[i].2 <= 4 * (sheets + 1)
        }),
{
    lemma_plan_covers_document(page_count, rule);
}

/// The documents and rules [`booklet_plan`] is defined for: at least one sheet
/// a booklet and pages per booklet within `u32`, the two covers present when
/// they are dropped, and slot indices within `i32`.
pub open spec fn booklet_plan_domain(page_count: int, rule: BindingRule) -> bool {
    &&& 0 <= page_count
    &&& 1 <= rule.sheets_per_booklet
    &&& rule.sheets_per_booklet * 4 <= u32::MAX
    &&& rule.has_cover && !rule.keep_cover ==> page_count >= 2
    &&& page_count + 5 <= i32::MAX
}

/// `lo <= q < hi`.
pub open spec fn within(q: int, lo: int, hi: int) -> bool {
    lo <= q < hi
}

/// What holds of a sheet sharing that a plan is built from.
pub open spec fn config_fits(config: (int, int, int)) -> bool {
    &&& config.0 >= 1
    &&& config.1 >= 0
}

/// The booklets from slot `start` on: numbered one past the one before, each
/// starting where the one before ends, holding at least one slot, starting
/// and ending on a sheet boundary, in order, the last (and only the last)
/// reaching `total`; each slot from `start` to `total` lies in one of them.
pub proof fn lemma_spans_from(config: (int, int, int), total: int, idx: int, start: int)
    requires
        config_fits(config),
        idx >= 0,
        0 <= start,
        start % 4 == 0,
        total % 4 == 0,
    ensures
        ({
            let s = spans_from(config, total, idx, start);
            &&& s.len() == 0 <==> start >= total
            &&& s.len() > 0 ==> s[0].2 == start
            &&& s.len() > 0 ==> s[s.len() - 1].3 == total
            &&& forall|i: int| 0 <= i < s.len() ==> #[trigger] s[i].0 == idx + i + 1
            &&& forall|i: int| 0 <= i < s.len() ==> start <= #[trigger] s[i].2 < s[i].3 <= total
            &&& forall|i: int| 0 <= i < s.len() ==> #[trigger] s[i].2 % 4 == 0 && s[i].3 % 4 == 0
            &&& forall|i: int| 0 <= i < s.len() ==> (#[trigger] s[i].1 <==> i == s.len() - 1)
            &&& forall|i: int| 0 < i < s.len() ==> #[trigger] s[i].2 == s[i - 1].3
            &&& forall|i: int|
                0 <= i < s.len() - 1 ==> #[trigger] s[i].3 - s[i].2 == booklet_len(config, idx + i)
            &&& forall|i: int|
                0 <= i < s.len() ==> #[trigger] s[i].3 - s[i].2 <= booklet_len(config, idx + i)
            &&& forall|i: int, j: int| 0 <= i < j < s.len() ==> #[trigger] s[i].3 <= #[trigger] s[j].2
            &&& forall|q: int|
                #[trigger] within(q, start, total) ==> exists|i: int|
                    0 <= i < s.len() && #[trigger] within(q, s[i].2, s[i].3)
        }),
    decreases (if total > start { total - start } else { 0 }),
{
    let s = spans_from(config, total, idx, start);
    if start < total {
        let reach = start + booklet_len(config, idx);
        let end = if reach >= total { total } else { reach };
        assert(end > start);
        assert(end % 4 == 0);
        lemma_spans_from(config, total, idx + 1, end);
        let r = spans_from(config, total, idx + 1, end);
        assert(s == seq![(idx + 1, end == total, start, end)] + r);
        assert(r.len() == 0 <==> end == total);
        assert forall|i: int| 0 < i < s.len() implies #[trigger] s[i].2 == s[i - 1].3 by {
            assert(s[i] == r[i - 1]);
            if i > 1 {
                assert(s[i - 1] == r[i - 2]);
            }
        }
        assert forall|i: int| 0 <= i < s.len() implies #[trigger] s[i].0 == idx + i + 1 by {
            if i > 0 {
                assert(s[i] == r[i - 1]);
            }
        }
        assert forall|i: int| 0 <= i < s.len() implies (#[trigger] s[i].1 <==> i == s.len() - 1) by {
            if i > 0 {
                assert(s[i] == r[i - 1]);
            }
        }
        assert forall|i: int, j: int| 0 <= i < j < s.len() implies #[trigger] s[i].3 <= #[trigger] s[j].2 by {
            assert(s[j] == r[j - 1]);
            if i > 0 {
                assert(s[i] == r[i - 1]);
            }
        }
        assert forall|q: int| #[trigger] within(q, start, total) implies exists|i: int|
            0 <= i < s.len() && #[trigger] within(q, s[i].2, s[i].3) by {
            if q < end {
                assert(within(q, s[0].2, s[0].3));
            } else {
                assert(within(q, end, total));
                let w = choose|i: int| 0 <= i < r.len() && #[trigger] within(q, r[i].2, r[i].3);
                assert(s[w + 1] == r[w]);
                assert(within(q, s[w + 1].2, s[w + 1].3));
            }
        }
    } else {
        assert(s =~= Seq::empty());
    }
}

/// What the sheet sharing promises on every input it is defined for: each
/// booklet has at least one sheet and at most the asked number, the blank
/// tail is under one sheet and fills the last sheet (the README's alignment to
/// a multiple of four pages), and the extra sheets go to no more booklets than
/// there are.
pub proof fn lemma_booklet_config(
    page_count: int,
    sheets_per_booklet: int,
    has_cover: bool,
    keep_cover: bool,
)
    requires
        calc_booklet_sheets_domain(page_count, sheets_per_booklet, has_cover, keep_cover),
    ensures
        ({
            let (sheets, add, tail) = booklet_config_spec(
                page_count,
                sheets_per_booklet,
                has_cover,
                keep_cover,
            );
            let pages = adjusted_page_count(page_count, has_cover, keep_cover);
            &&& 1 <= sheets <= sheets_per_booklet
            &&& 0 <= tail < 4
            &&& (pages + tail) % 4 == 0
            &&& 0 <= add
            &&& add * 4 <= aligned_page_count(pages)
        }),
{
    let pages = adjusted_page_count(page_count, has_cover, keep_cover);
    let total = aligned_page_count(pages);
    let per = sheets_per_booklet * 4;
    vstd::arithmetic::div_mod::lemma_fundamental_div_mod(pages + 3, 4);
    vstd::arithmetic::div_mod::lemma_mod_multiples_basic((pages + 3) / 4, 4);
    vstd::arithmetic::div_mod::lemma_fundamental_div_mod(total, per);
    assert(total >= 0);
    if (total % per) / 4 > total / per && (total % per) * 4 < per * 3 {
        lemma_even_spread(total, per, sheets_per_booklet);
    }
}

/// How the sheets are shared out, as the pages add up. With `total` the
/// pages to lay out rounded up to whole sheets, `per` the pages of a booklet
/// of `sheets_per_booklet` sheets, `full` the number of full booklets and
/// `rest` the pages left over:
/// - when the leftover sheets are no more than the full booklets, the
///   booklets keep `sheets_per_booklet` sheets and the leftover sheets go one
///   each to the first booklets: `full` booklets and `add` extra sheets make
///   up the pages exactly;
/// - else, when the leftover is under three quarters of a booklet, `full + 1`
///   booklets share the pages evenly: each has `booklet_sheets` sheets, fewer
///   than `full + 1` of them one sheet more, and the sheets make up the pages
///   exactly;
/// - else the leftover stays a short last booklet, of at least three quarters
///   of a booklet, and no booklet gets an extra sheet.
///
/// In every case the extra sheets go to no more booklets than there are full
/// ones, and the blank tail fills the last sheet.
pub proof fn lemma_sheet_sharing(
    page_count: int,
    sheets_per_booklet: int,
    has_cover: bool,
    keep_cover: bool,
)
    requires
        calc_booklet_sheets_domain(page_count, sheets_per_booklet, has_cover, keep_cover),
    ensures
        ({
            let (sheets, add, tail) = booklet_config_spec(
                page_count,
                sheets_per_booklet,
                has_cover,
                keep_cover,
            );
            let pages = if has_cover {
                if keep_cover {
                    page_count + 2
                } else {
                    page_count - 2
                }
            } else {
                page_count
            };
            let total = ((pages + 3) / 4) * 4;
            let per = 4 * sheets_per_booklet;
            let full = total / per;
            let rest = total % per;
            &&& tail == total - pages
            &&& 0 <= add <= full
            &&& rest / 4 <= full ==> {
                &&& sheets == sheets_per_booklet
                &&& sheets * 4 * full + add * 4 == total
            }
            &&& rest / 4 > full && rest * 4 < per * 3 ==> {
                &&& sheets * 4 * (full + 1) + add * 4 == total
                &&& add < full + 1
            }
            &&& rest / 4 > full && rest * 4 >= per * 3 ==> {
                &&& sheets == sheets_per_booklet
                &&& add == 0
            }
        }),
{
    let pages = adjusted_page_count(page_count, has_cover, keep_cover);
    let total = aligned_page_count(pages);
    let per = sheets_per_booklet * 4;
    let full = total / per;
    let rest = total % per;
    lemma_booklet_config(page_count, sheets_per_booklet, has_cover, keep_cover);
    vstd::arithmetic::div_mod::lemma_fundamental_div_mod(pages + 3, 4);
    vstd::arithmetic::div_mod::lemma_mod_multiples_basic((pages + 3) / 4, 4);
    vstd::arithmetic::div_mod::lemma_fundamental_div_mod(total, per);
    assert(total >= 0);
    assert(total == per * full + rest);
    assert(0 <= rest < per);
    assert(full >= 0) by {
        vstd::arithmetic::div_mod::lemma_div_pos_is_pos(total, per);
    }
    assert(rest % 4 == 0) by {
        assert(per * full == 4 * (sheets_per_booklet * full)) by (nonlinear_arith)
            requires
                per == sheets_per_booklet * 4,
        ;
        assert(rest == total - 4 * (sheets_per_booklet * full));
        vstd::arithmetic::div_mod::lemma_mod_multiples_vanish(-(sheets_per_booklet * full), total, 4);
    }
    assert(rest / 4 * 4 == rest);
    if rest / 4 <= full {
        assert(sheets_per_booklet * 4 * full == per * full);
    } else if rest * 4 < per * 3 {
        lemma_even_spread(total, per, sheets_per_booklet);
        let count = full + 1;
        let sh = total / count / 4;
        let left = total - sh * 4 * count;
        assert(left / 4 * 4 == left);
    }
}

/// The booklets of a plan cut the slots `[0, slot_count)` without gap or
/// overlap: the first starts at slot 0, each starts where the one before ends,
/// holds at least one slot and starts and ends on a sheet boundary, they are
/// numbered 1, 2, ... in order, only the last is marked last and it ends at
/// the last slot, and every slot lies in exactly one booklet. A booklet that
/// is not the last holds four slots a sheet, one sheet more for the first
/// `add_sheet_booklet_count` booklets.
pub proof fn lemma_plan_covers_document(page_count: int, rule: BindingRule)
    requires
        booklet_plan_domain(page_count, rule),
    ensures
        ({
            let s = booklet_plan_spec(page_count, rule);
            let hc = rule.has_cover;
            let kc = rule.keep_cover;
            let total = slot_count(page_count, hc, kc);
            let config = booklet_config_spec(page_count, rule.sheets_per_booklet as int, hc, kc);
            &&& total % 4 == 0
            &&& total >= 0
            &&& s.len() == 0 <==> total == 0
            &&& s.len() > 0 ==> s[0].2 == 0
            &&& s.len() > 0 ==> s[s.len() - 1].3 == total
            &&& forall|i: int| 0 <= i < s.len() ==> #[trigger] s[i].0 == i + 1
            &&& forall|i: int| 0 <= i < s.len() ==> 0 <= #[trigger] s[i].2 < s[i].3 <= total
            &&& forall|i: int| 0 <= i < s.len() ==> #[trigger] s[i].2 % 4 == 0 && s[i].3 % 4 == 0
            &&& forall|i: int| 0 <= i < s.len() ==> (#[trigger] s[i].1 <==> i == s.len() - 1)
            &&& forall|i: int| 0 < i < s.len() ==> #[trigger] s[i].2 == s[i - 1].3
            &&& forall|i: int|
                0 <= i < s.len() - 1 ==> #[trigger] s[i].3 - s[i].2 == booklet_len(config, i)
            &&& forall|i: int|
                0 <= i < s.len() ==> #[trigger] s[i].3 - s[i].2 <= booklet_len(config, i)
            &&& forall|q: int|
                #[trigger] within(q, 0, total) ==> exists|i: int|
                    0 <= i < s.len() && #[trigger] within(q, s[i].2, s[i].3)
            &&& forall|q: int, i: int, j: int|
                0 <= i < s.len() && 0 <= j < s.len() && #[trigger] within(q, s[i].2, s[i].3)
                    && #[trigger] within(q, s[j].2, s[j].3) ==> i == j
        }),
{
    let hc = rule.has_cover;
    let kc = rule.keep_cover;
    lemma_booklet_config(page_count, rule.sheets_per_booklet as int, hc, kc);
    let config = booklet_config_spec(page_count, rule.sheets_per_booklet as int, hc, kc);
    let total = slot_count(page_count, hc, kc);
    let pages = adjusted_page_count(page_count, hc, kc);
    assert(total == pages + config.2);
    lemma_spans_from(config, total, 0, 0);
    let s = booklet_plan_spec(page_count, rule);
    assert forall|q: int, i: int, j: int|
        0 <= i < s.len() && 0 <= j < s.len() && #[trigger] within(q, s[i].2, s[i].3)
            && #[trigger] within(q, s[j].2, s[j].3) implies i == j by {
        if i < j {
            assert(s[i].3 <= s[j].2);
        } else if j < i {
            assert(s[j].3 <= s[i].2);
        }
    }
}

/// Splits a document of `page_count` pages into booklets under `rule`: which
/// slots each booklet holds, and which is the last.
pub fn booklet_plan(page_count: usize, rule: &BindingRule) -> (plan: Vec<BookletSpan>)
    requires
        booklet_plan_domain(page_count as int, *rule),
    ensures
        plan@.map_values(|s: BookletSpan| span_model(s)) == booklet_plan_spec(page_count as int, *rule),
{
    let has_cover = rule.has_cover;
    let keep_cover = rule.keep_cover;
    let count: i32 = page_count as i32;
    let config = calc_booklet_sheets(
        page_count as u32,
        rule.sheets_per_booklet as u32,
        has_cover,
        keep_cover,
    );
    let pages: i32 = if has_cover {
        if keep_cover {
            count + 2
        } else {
            count - 2
        }
    } else {
        count
    };
    let total: i32 = pages + config.tail_pad_page as i32;
    let ghost cfg = (
        config.booklet_sheets as int,
        config.add_sheet_booklet_count as int,
        config.tail_pad_page as int,
    );
    proof {
        lemma_booklet_config(page_count as int, rule.sheets_per_booklet as int, has_cover, keep_cover);
    }
    assert(total == slot_count(page_count as int, has_cover, keep_cover));
    let mut plan: Vec<BookletSpan> = Vec::new();
    let mut idx: i32 = 0;
    let mut start: i32 = 0;
    assert(plan@.map_values(|s: BookletSpan| span_model(s)) =~= Seq::empty());
    while start < total
        invariant
            cfg == (
                config.booklet_sheets as int,
                config.add_sheet_booklet_count as int,
                config.tail_pad_page as int,
            ),
            config_fits(cfg),
            config.booklet_sheets <= u32::MAX / 4,
            0 <= total,
            total % 4 == 0,
            0 <= start <= total,
            start % 4 == 0,
            0 <= idx <= start,
            plan@.map_values(|s: BookletSpan| span_model(s)) + spans_from(
                cfg,
                total as int,
                idx as int,
                start as int,
            ) == spans_from(cfg, total as int, 0, 0),
        decreases total - start,
    {
        proof {
            lemma_spans_from(cfg, total as int, idx as int, start as int);
        }
        let ghost rest = spans_from(cfg, total as int, idx as int, start as int);
        let extra: i64 = if (idx as u32) < config.add_sheet_booklet_count {
            4
        } else {
            0
        };
        let reach: i64 = start as i64 + config.booklet_sheets as i64 * 4 + extra;
        let end: i32 = if reach >= total as i64 {
            total
        } else {
            reach as i32
        };
        let is_last = end == total;
        assert(rest[0] == (idx + 1, is_last, start as int, end as int));
        assert(rest == seq![rest[0]] + spans_from(cfg, total as int, idx + 1, end as int));
        idx = idx + 1;
        let span = BookletSpan {
            booklet_num: idx,
            is_last_booklet: is_last,
            start_slot: start,
            end_slot: end,
        };
        let ghost before = plan@;
        plan.push(span);
        assert(plan@.map_values(|s: BookletSpan| span_model(s)) =~= before.map_values(
            |s: BookletSpan| span_model(s),
        ).push(span_model(span)));
        start = end;
    }
    proof {
        assert(spans_from(cfg, total as int, idx as int, start as int) =~= Seq::empty());
    }
    plan
}

proof fn lemma_even_spread(total: int, per: int, spb: int)
    requires
        spb >= 1,
        per == spb * 4,
        total >= 0,
        total % 4 == 0,
        (total % per) / 4 > total / per,
    ensures
        ({
            let count = total / per + 1;
            let sheets = total / count / 4;
            &&& count >= 1
            &&& 1 <= sheets < spb
            &&& sheets * 4 * count <= total
            &&& (total - sheets * 4 * count) % 4 == 0
            &&& (total - sheets * 4 * count) / 4 < count
        }),
{
    let full = total / per;
    let rest = total % per;
    let count = full + 1;
    vstd::arithmetic::div_mod::lemma_fundamental_div_mod(total, per);
    assert(rest >= 4 * count);
    assert(total >= rest);
    assert(total >= 4 * count);
    let q = total / count;
    vstd::arithmetic::div_mod::lemma_fundamental_div_mod(total, count);
    let r = total % count;
    assert(0 <= r < count);
    assert(total == count * q + r);
    assert(q >= 4) by (nonlinear_arith)
        requires
            total >= 4 * count,
            total == count * q + r,
            0 <= r < count,
            count >= 1,
    ;
    assert(total < count * per) by (nonlinear_arith)
        requires
            total == per * full + rest,
            rest < per,
            count == full + 1,
    ;
    assert(q < per) by (nonlinear_arith)
        requires
            total == count * q + r,
            0 <= r,
            total < count * per,
            count >= 1,
    ;
    let sheets = q / 4;
    assert(sheets >= 1);
    assert(sheets < spb);
    assert(sheets * 4 <= q);
    assert(sheets * 4 * count <= q * count) by (nonlinear_arith)
        requires
            sheets * 4 <= q,
            count >= 1,
    ;
    assert(q * count == count * q) by (nonlinear_arith);
    assert(sheets * 4 * count <= total);
    let left = total - sheets * 4 * count;
    assert(left % 4 == 0) by {
        assert(sheets * 4 * count == 4 * (sheets * count)) by (nonlinear_arith);
        vstd::arithmetic::div_mod::lemma_mod_sub_multiples_vanish(total, 4);
        assert(left == total - 4 * (sheets * count));
        vstd::arithmetic::div_mod::lemma_mod_multiples_vanish(-(sheets * count), total, 4);
    }
    // q == 4 * sheets + (q % 4), so left == count * (q % 4) + r < 4 * count
    assert(q == 4 * sheets + q % 4);
    assert(left == count * (q % 4) + r) by (nonlinear_arith)
        requires
            left == total - sheets * 4 * count,
            total == count * q + r,
            q == 4 * sheets + q % 4,
    ;
    assert(left < 4 * count) by (nonlinear_arith)
        requires
            left == count * (q % 4) + r,
            0 <= q % 4 <= 3,
            r < count,
            count >= 1,
    ;
}

/// Works out how the pages of a document are shared out among booklets of
/// `sheets_per_booklet` sheets each (four pages a sheet).
///
/// `has_cover` says the first and last pages are covers; `keep_cover` keeps
/// them, with a blank page behind each.
pub fn calc_booklet_sheets(
    page_count: u32,
    sheets_per_booklet: u32,
    has_cover: bool,
    keep_cover: bool,
) -> (config: BookletConfig)
    requires
        calc_booklet_sheets_domain(
            page_count as int,
            sheets_per_booklet as int,
            has_cover,
            keep_cover,
        ),
    ensures
        (config.booklet_sheets as int, config.add_sheet_booklet_count as int, config.tail_pad_page as int)
            == booklet_config_spec(page_count as int, sheets_per_booklet as int, has_cover, keep_cover),
        1 <= config.booklet_sheets <= sheets_per_booklet,
        config.tail_pad_page < 4,
        (adjusted_page_count(page_count as int, has_cover, keep_cover) + config.tail_pad_page) % 4
            == 0,
{
    let pages: u32 = if has_cover {
        if keep_cover {
            page_count + 2
        } else {
            page_count - 2
        }
    } else {
        page_count
    };
    let total: u32 = ((pages + 3) / 4) * 4;
    let last_add: u32 = total - pages;
    let pages_per_booklet: u32 = sheets_per_booklet * 4;
    let booklet_count: u32 = total / pages_per_booklet;
    let last_booklet_pages: u32 = total % pages_per_booklet;
    proof {
        vstd::arithmetic::div_mod::lemma_fundamental_div_mod(pages + 3, 4);
        vstd::arithmetic::div_mod::lemma_mod_multiples_basic((pages + 3) / 4, 4);
    }
    if last_booklet_pages / 4 <= booklet_count {
        BookletConfig {
            booklet_sheets: sheets_per_booklet,
            add_sheet_booklet_count: last_booklet_pages / 4,
            tail_pad_page: last_add,
        }
    } else if (last_booklet_pages as u64) * 4 < (pages_per_booklet as u64) * 3 {
        proof {
            lemma_even_spread(total as int, pages_per_booklet as int, sheets_per_booklet as int);
        }
        let count: u32 = booklet_count + 1;
        let booklet_sheets: u32 = total / count / 4;
        let remain: u32 = (total - booklet_sheets * 4 * count) / 4;
        BookletConfig {
            booklet_sheets,
            add_sheet_booklet_count: remain,
            tail_pad_page: last_add,
        }
    } else {
        BookletConfig {
            booklet_sheets: sheets_per_booklet,
            add_sheet_booklet_count: 0,
            tail_pad_page: last_add,
        }
    }
}

} // verus!
