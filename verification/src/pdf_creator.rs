//! Imposition: which pages of a booklet are printed together on each side
//! of a sheet, where on the sheet, and in which output document.
use vstd::prelude::*;

use crate::booklet::{
    booklet_len, booklet_plan, booklet_plan_domain, booklet_plan_spec, lemma_plan_covers_document, slot_count, span_model, within,
    BindingRule, BookletSpan,
};

verus! {

/// Marks a half of a sheet that stays blank.
pub const BLANK_PAGE: i32 = 2147483647;

/// Whether page `p` of a document of `page_count` pages is printed: every
/// page, except the first and the last when the covers are dropped.
pub open spec fn printed_page(page_count: int, has_cover: bool, keep_cover: bool, p: int) -> bool {
    if has_cover && !keep_cover {
        1 <= p <= page_count - 2
    } else {
        0 <= p < page_count
    }
}

/// Whether `v` is the index of a page of a document of `page_count` pages;
/// any other index, [`BLANK_PAGE`] among them, is printed blank.
pub open spec fn in_document(page_count: int, v: int) -> bool {
    0 <= v < page_count
}

/// The page index laid out in slot `pos` of the `total` slots of a document
/// of `page_count` pages, or [`BLANK_PAGE`].
///
/// Without covers slot `pos` holds index `pos`; the slots past the last page
/// (filling the last sheet) hold indices outside the document, which are
/// printed blank. Dropped covers leave the first and the last page out: the
/// slots hold the body, then blank pages. Kept covers put the front cover
/// first with a blank page behind it, then the body, then blank pages, and
/// last a blank page with the back cover behind it.
pub open spec fn slot_page(page_count: int, total: int, has_cover: bool, keep_cover: bool, pos: int) -> int {
    if has_cover && keep_cover {
        if pos == 0 {
            0
        } else if pos == total - 1 && page_count >= 2 {
            page_count - 1
        } else if 2 <= pos <= page_count - 1 {
            pos - 1
        } else {
            BLANK_PAGE as int
        }
    } else if has_cover {
        if 0 <= pos < page_count - 2 {
            pos + 1
        } else {
            BLANK_PAGE as int
        }
    } else {
        pos
    }
}

/// The slot that holds printed page `p`.
pub open spec fn page_slot(page_count: int, total: int, has_cover: bool, keep_cover: bool, p: int) -> int {
    if has_cover && keep_cover {
        if p == 0 {
            0
        } else if p == page_count - 1 {
            total - 1
        } else {
            p + 1
        }
    } else if has_cover {
        p - 1
    } else {
        p
    }
}

/// The slots of a document hold each printed page exactly once and no other
/// page of the document; with kept covers the front cover comes first with a
/// blank page behind it and the back cover last with a blank page before it.
pub proof fn lemma_slots_hold_each_page_once(page_count: int, has_cover: bool, keep_cover: bool)
    requires
        0 <= page_count < BLANK_PAGE,
        has_cover && !keep_cover ==> page_count >= 2,
    ensures
        ({
            let total = slot_count(page_count, has_cover, keep_cover);
            &&& forall|pos: int|
                0 <= pos < total ==> (!in_document(
                    page_count,
                    #[trigger] slot_page(page_count, total, has_cover, keep_cover, pos),
                ) || printed_page(
                    page_count,
                    has_cover,
                    keep_cover,
                    slot_page(page_count, total, has_cover, keep_cover, pos),
                ))
            &&& forall|p: int|
                #[trigger] printed_page(page_count, has_cover, keep_cover, p) ==> {
                    let pos = page_slot(page_count, total, has_cover, keep_cover, p);
                    &&& 0 <= pos < total
                    &&& slot_page(page_count, total, has_cover, keep_cover, pos) == p
                }
            &&& forall|a: int, b: int|
                0 <= a < total && 0 <= b < total && #[trigger] slot_page(
                    page_count,
                    total,
                    has_cover,
                    keep_cover,
                    a,
                ) == #[trigger] slot_page(page_count, total, has_cover, keep_cover, b)
                    && in_document(page_count, slot_page(page_count, total, has_cover, keep_cover, a))
                    ==> a == b
            &&& has_cover && keep_cover && page_count >= 2 ==> {
                &&& slot_page(page_count, total, has_cover, keep_cover, 0) == 0
                &&& slot_page(page_count, total, has_cover, keep_cover, 1) == BLANK_PAGE
                &&& slot_page(page_count, total, has_cover, keep_cover, total - 2) == BLANK_PAGE
                &&& slot_page(page_count, total, has_cover, keep_cover, total - 1) == page_count - 1
            }
        }),
{
    let total = slot_count(page_count, has_cover, keep_cover);
    let pages = crate::booklet::adjusted_page_count(page_count, has_cover, keep_cover);
    vstd::arithmetic::div_mod::lemma_fundamental_div_mod(pages + 3, 4);
    assert(total >= pages);
}

/// The slot of the `k`-th pair of a booklet `[start, end)`: its first page
/// is slot `start + k`; its second is the slot mirrored around the fold in the
/// middle binding, and the slot half a booklet further in the edge binding.
pub open spec fn pair_slot(start: int, end: int, binding_at_middle: bool, k: int, second: bool) -> int {
    if !second {
        start + k
    } else if binding_at_middle {
        end - 1 - k
    } else {
        start + k + (end - start) / 2
    }
}

/// The page pairs of the sheet sides of the booklet holding the slots
/// `[start, end)`, as [`calc_page_on_sheet`] gives them: one pair for every
/// two slots, none for an empty range.
pub open spec fn sheet_pairs_spec(
    page_count: int,
    total: int,
    start: int,
    end: int,
    rule: BindingRule,
) -> Seq<(int, int)> {
    Seq::new(
        if start < end {
            ((end - start) / 2) as nat
        } else {
            0
        },
        |k: int|
            (
                slot_page(
                    page_count,
                    total,
                    rule.has_cover,
                    rule.keep_cover,
                    pair_slot(start, end, rule.binding_at_middle, k, false),
                ),
                slot_page(
                    page_count,
                    total,
                    rule.has_cover,
                    rule.keep_cover,
                    pair_slot(start, end, rule.binding_at_middle, k, true),
                ),
            ),
    )
}

/// The pairs of a booklet with an even number of slots use each of its slots
/// exactly once.
pub proof fn lemma_pair_slots_cover(start: int, end: int, binding_at_middle: bool)
    requires
        start <= end,
        (end - start) % 2 == 0,
    ensures
        forall|k: int, c: bool|
            0 <= k < (end - start) / 2 ==> start <= #[trigger] pair_slot(
                start,
                end,
                binding_at_middle,
                k,
                c,
            ) < end,
        forall|k1: int, c1: bool, k2: int, c2: bool|
            0 <= k1 < (end - start) / 2 && 0 <= k2 < (end - start) / 2 && #[trigger] pair_slot(
                start,
                end,
                binding_at_middle,
                k1,
                c1,
            ) == #[trigger] pair_slot(start, end, binding_at_middle, k2, c2) ==> k1 == k2 && c1
                == c2,
        forall|q: int|
            #[trigger] within(q, start, end) ==> exists|k: int, c: bool|
                0 <= k < (end - start) / 2 && #[trigger] pair_slot(start, end, binding_at_middle, k, c)
                    == q,
{
    let h = (end - start) / 2;
    assert(end - start == 2 * h);
    assert forall|q: int| #[trigger] within(q, start, end) implies exists|k: int, c: bool|
        0 <= k < h && #[trigger] pair_slot(start, end, binding_at_middle, k, c) == q by {
        if q < start + h {
            assert(pair_slot(start, end, binding_at_middle, q - start, false) == q);
        } else if binding_at_middle {
            assert(pair_slot(start, end, binding_at_middle, end - 1 - q, true) == q);
        } else {
            assert(pair_slot(start, end, binding_at_middle, q - start - h, true) == q);
        }
    }
}

/// [`slot_page`] computed on `i32`.
fn page_at_slot(page_count: i32, total: i32, has_cover: bool, keep_cover: bool, pos: i32) -> (page: i32)
    requires
        0 <= page_count,
        0 <= total,
    ensures
        page == slot_page(page_count as int, total as int, has_cover, keep_cover, pos as int),
{
    if has_cover && keep_cover {
        if pos == 0 {
            0
        } else if pos == total - 1 && page_count >= 2 {
            page_count - 1
        } else if 2 <= pos && pos <= page_count - 1 {
            pos - 1
        } else {
            BLANK_PAGE
        }
    } else if has_cover {
        if 0 <= pos && pos < page_count - 2 {
            pos + 1
        } else {
            BLANK_PAGE
        }
    } else {
        pos
    }
}

/// A pair of `i32` page indices as integers.
pub open spec fn pair_model(p: (i32, i32)) -> (int, int) {
    (p.0 as int, p.1 as int)
}

/// The pages that go side by side on each sheet side of the booklet that
/// holds the slots `[group_start_idx, group_end_idx)` of the `slot_count`
/// slots laid out for a document of `page_count` pages, in printing order.
/// [`BLANK_PAGE`] marks a blank half; without covers, a slot past the last
/// page keeps its own index, which lies outside the document and is printed
/// blank too.
pub fn calc_page_on_sheet(
    page_count: i32,
    slot_count: i32,
    group_start_idx: i32,
    group_end_idx: i32,
    binding_rule: &BindingRule,
) -> (pairs: Vec<(i32, i32)>)
    requires
        0 <= page_count,
        0 <= slot_count,
        0 <= group_start_idx,
    ensures
        pairs@.map_values(|p: (i32, i32)| pair_model(p)) == sheet_pairs_spec(
            page_count as int,
            slot_count as int,
            group_start_idx as int,
            group_end_idx as int,
            *binding_rule,
        ),
{
    let start = group_start_idx;
    let end = group_end_idx;
    let half: i32 = if start < end {
        (end - start) / 2
    } else {
        0
    };
    let has_cover = binding_rule.has_cover;
    let keep_cover = binding_rule.keep_cover;
    let middle = binding_rule.binding_at_middle;
    let ghost all = sheet_pairs_spec(
        page_count as int,
        slot_count as int,
        start as int,
        end as int,
        *binding_rule,
    );
    let mut res: Vec<(i32, i32)> = Vec::new();
    let mut k: i32 = 0;
    while k < half
        invariant
            0 <= page_count,
            0 <= slot_count,
            0 <= start,
            half == (if start < end {
                (end - start) / 2
            } else {
                0
            }),
            0 <= k <= half,
            has_cover == binding_rule.has_cover,
            keep_cover == binding_rule.keep_cover,
            middle == binding_rule.binding_at_middle,
            all == sheet_pairs_spec(
                page_count as int,
                slot_count as int,
                start as int,
                end as int,
                *binding_rule,
            ),
            res@.map_values(|p: (i32, i32)| pair_model(p)) =~= all.take(k as int),
        decreases half - k,
    {
        let first = start + k;
        let second = if middle {
            end - 1 - k
        } else {
            start + k + half
        };
        let low = page_at_slot(page_count, slot_count, has_cover, keep_cover, first);
        let high = page_at_slot(page_count, slot_count, has_cover, keep_cover, second);
        let ghost before = res@;
        res.push((low, high));
        assert(res@.map_values(|p: (i32, i32)| pair_model(p)) =~= before.map_values(
            |p: (i32, i32)| pair_model(p),
        ).push((low as int, high as int)));
        assert(all[k as int] == (low as int, high as int));
        assert(all.take(k + 1) =~= all.take(k as int).push(all[k as int]));
        k = k + 1;
    }
    assert(all.take(half as int) =~= all);
    res
}

/// The document a sheet side is added to.
#[derive(Debug, Clone, Copy, PartialEq, Eq)]
pub enum OutputDoc {
    /// The one document printed on both sides by the printer.
    Booklet,
    /// The fronts of the sheets, printed second when turning the paper by hand.
    Front,
    /// The backs of the sheets, printed first when turning the paper by hand.
    Back,
}

/// One sheet side to produce: its document, its pair of pages and whether it
/// is the back of a sheet.
#[derive(Debug, Clone, Copy, PartialEq, Eq)]
pub struct SheetSide {
    pub doc: OutputDoc,
    pub page_pair: (i32, i32),
    pub is_sheet_back: bool,
}


/// The sheet sides made from the page pairs of a booklet, in the order they
/// are produced.
///
/// The pairs alternate between the front and the back of the sheets. When the
/// printer prints both sides, they go to one document in that order. When the
/// paper is turned by hand, the fronts go to the front document in order and
/// the backs to the back document in reverse order (the backs are printed
/// first, and the stack is turned over for the fronts).
pub open spec fn sheet_sides_spec(pairs: Seq<(i32, i32)>, auto_double_side: bool) -> Seq<SheetSide> {
    if auto_double_side {
        Seq::new(
            pairs.len(),
            |i: int| SheetSide { doc: OutputDoc::Booklet, page_pair: pairs[i], is_sheet_back: i % 2 == 1 },
        )
    } else {
        let backs = pairs.len() / 2;
        Seq::new(
            ((pairs.len() + 1) / 2) as nat,
            |j: int| SheetSide { doc: OutputDoc::Front, page_pair: pairs[2 * j], is_sheet_back: false },
        ) + Seq::new(
            backs as nat,
            |j: int|
                SheetSide {
                    doc: OutputDoc::Back,
                    page_pair: pairs[2 * (backs - 1 - j) + 1],
                    is_sheet_back: true,
                },
        )
    }
}

/// The index of the pair that sheet side `t` shows, among the `len` pairs of
/// a booklet.
pub open spec fn side_source(len: int, auto_double_side: bool, t: int) -> int {
    if auto_double_side {
        t
    } else if t < (len + 1) / 2 {
        2 * t
    } else {
        2 * (len / 2 - 1 - (t - (len + 1) / 2)) + 1
    }
}

/// Whichever way the paper is turned, every pair of a booklet is printed on
/// exactly one sheet side, and on the back of a sheet exactly when it is a
/// back (an odd pair). When the printer prints both sides every side goes to
/// the one booklet document; when the paper is turned by hand every front
/// goes to the fronts document and every back to the backs document.
pub proof fn lemma_sides_print_each_pair_once(pairs: Seq<(i32, i32)>, auto_double_side: bool)
    ensures
        ({
            let sides = sheet_sides_spec(pairs, auto_double_side);
            let len = pairs.len() as int;
            &&& sides.len() == len
            &&& forall|t: int|
                0 <= t < len ==> {
                    let k = #[trigger] side_source(len, auto_double_side, t);
                    &&& 0 <= k < len
                    &&& sides[t].page_pair == pairs[k]
                    &&& sides[t].is_sheet_back == (k % 2 == 1)
                }
            &&& forall|t: int|
                0 <= t < len ==> (#[trigger] sides[t]).doc == (if auto_double_side {
                    OutputDoc::Booklet
                } else if sides[t].is_sheet_back {
                    OutputDoc::Back
                } else {
                    OutputDoc::Front
                })
            &&& forall|t1: int, t2: int|
                0 <= t1 < len && 0 <= t2 < len && #[trigger] side_source(len, auto_double_side, t1)
                    == #[trigger] side_source(len, auto_double_side, t2) ==> t1 == t2
            &&& forall|k: int|
                #[trigger] within(k, 0, len) ==> exists|t: int|
                    0 <= t < len && #[trigger] side_source(len, auto_double_side, t) == k
        }),
{
    let len = pairs.len() as int;
    let fronts = (len + 1) / 2;
    let backs = len / 2;
    assert(fronts + backs == len);
    let sides = sheet_sides_spec(pairs, auto_double_side);
    assert forall|k: int| #[trigger] within(k, 0, len) implies exists|t: int|
        0 <= t < len && #[trigger] side_source(len, auto_double_side, t) == k by {
        if auto_double_side {
            assert(side_source(len, auto_double_side, k) == k);
        } else if k % 2 == 0 {
            assert(side_source(len, auto_double_side, k / 2) == k);
        } else {
            let t = fronts + backs - 1 - (k - 1) / 2;
            assert(side_source(len, auto_double_side, t) == k);
        }
    }
}

/// Distributes the page pairs of a booklet over sheet sides and output
/// documents, in the order they are produced.
pub fn arrange_sheet_sides(sheet_pages: &Vec<(i32, i32)>, auto_double_side: bool) -> (sides: Vec<
    SheetSide,
>)
    ensures
        sides@ == sheet_sides_spec(sheet_pages@, auto_double_side),
        sides.len() == sheet_pages.len(),
        forall|t: int|
            0 <= t < sides.len() ==> (#[trigger] sides[t]).doc == (if auto_double_side {
                OutputDoc::Booklet
            } else if sides[t].is_sheet_back {
                OutputDoc::Back
            } else {
                OutputDoc::Front
            }),
{
    let len = sheet_pages.len();
    let mut sides: Vec<SheetSide> = Vec::new();
    let ghost target = sheet_sides_spec(sheet_pages@, auto_double_side);
    if auto_double_side {
        let mut i: usize = 0;
        while i < len
            invariant
                len == sheet_pages.len(),
                auto_double_side,
                target == sheet_sides_spec(sheet_pages@, auto_double_side),
                i <= len,
                sides@ =~= target.take(i as int),
            decreases len - i,
        {
            let side = SheetSide {
                doc: OutputDoc::Booklet,
                page_pair: sheet_pages[i],
                is_sheet_back: i % 2 == 1,
            };
            sides.push(side);
            assert(target.take(i + 1) =~= target.take(i as int).push(target[i as int]));
            i = i + 1;
        }
        assert(target.take(len as int) =~= target);
    } else {
        let fronts: usize = len / 2 + len % 2;
        let backs: usize = len / 2;
        let ghost front_part = Seq::new(
            fronts as nat,
            |j: int| SheetSide { doc: OutputDoc::Front, page_pair: sheet_pages@[2 * j], is_sheet_back: false },
        );
        let ghost back_part = Seq::new(
            backs as nat,
            |j: int|
                SheetSide {
                    doc: OutputDoc::Back,
                    page_pair: sheet_pages@[2 * (backs - 1 - j) + 1],
                    is_sheet_back: true,
                },
        );
        assert(target =~= front_part + back_part);
        let mut j: usize = 0;
        while j < fronts
            invariant
                len == sheet_pages.len(),
                fronts == len / 2 + len % 2,
                front_part == Seq::new(
                    fronts as nat,
                    |j: int| SheetSide { doc: OutputDoc::Front, page_pair: sheet_pages@[2 * j], is_sheet_back: false },
                ),
                j <= fronts,
                sides@ =~= front_part.take(j as int),
            decreases fronts - j,
        {
            sides.push(SheetSide { doc: OutputDoc::Front, page_pair: sheet_pages[2 * j], is_sheet_back: false });
            assert(front_part.take(j + 1) =~= front_part.take(j as int).push(front_part[j as int]));
            j = j + 1;
        }
        let mut b: usize = 0;
        while b < backs
            invariant
                len == sheet_pages.len(),
                backs == len / 2,
                fronts == len / 2 + len % 2,
                front_part.len() == fronts,
                back_part == Seq::new(
                    backs as nat,
                    |j: int|
                        SheetSide {
                            doc: OutputDoc::Back,
                            page_pair: sheet_pages@[2 * (backs - 1 - j) + 1],
                            is_sheet_back: true,
                        },
                ),
                b <= backs,
                sides@ =~= front_part + back_part.take(b as int),
            decreases backs - b,
        {
            let idx = 2 * (backs - 1 - b) + 1;
            sides.push(SheetSide { doc: OutputDoc::Back, page_pair: sheet_pages[idx], is_sheet_back: true });
            assert(back_part.take(b + 1) =~= back_part.take(b as int).push(back_part[b as int]));
            b = b + 1;
        }
        assert(back_part.take(backs as int) =~= back_part);
        assert(front_part.take(fronts as int) =~= front_part);
    }
    sides
}

/// One half of a sheet side: the page shown there, whether it is the left
/// half, and whether it is turned upside down.
#[derive(Debug, Clone, Copy, PartialEq, Eq)]
pub struct HalfPage {
    pub page_num: i32,
    pub left: bool,
    pub rotate_180: bool,
}

/// Where the two pages of a pair go on a sheet side: the higher page on the
/// left half and the lower on the right. On the back of a sheet the left half
/// is turned upside down; the right half is turned on a back in the middle
/// binding and on a front in the edge binding.
pub fn sheet_side_halves(page_pair: (i32, i32), binding_at_middle: bool, is_sheet_back: bool) -> (halves:
    (HalfPage, HalfPage))
    ensures
        halves.0 == (HalfPage { page_num: page_pair.1, left: true, rotate_180: is_sheet_back }),
        halves.1 == (HalfPage {
            page_num: page_pair.0,
            left: false,
            rotate_180: (!binding_at_middle) != is_sheet_back,
        }),
{
    let rotate_180 = !binding_at_middle;
    let left = HalfPage { page_num: page_pair.1, left: true, rotate_180: is_sheet_back };
    let right = HalfPage { page_num: page_pair.0, left: false, rotate_180: rotate_180 != is_sheet_back };
    (left, right)
}

/// The number (from 1) of the document page at index `page_num`, or `None`
/// where the index is outside the document (a blank half).
pub fn source_page_number(page_num: i32, page_count: usize) -> (number: Option<u32>)
    requires
        page_count <= i32::MAX,
    ensures
        number is Some <==> 0 <= page_num < page_count,
        number matches Some(n) ==> n == page_num + 1,
{
    if page_num < 0 || page_num >= page_count as i32 {
        None
    } else {
        Some((page_num + 1) as u32)
    }
}

/// The largest of `ids`, 0 when there is none.
pub open spec fn seq_max(ids: Seq<u32>) -> int
    decreases ids.len(),
{
    if ids.len() == 0 {
        0
    } else {
        let rest = seq_max(ids.drop_last());
        if ids.last() > rest {
            ids.last() as int
        } else {
            rest
        }
    }
}

proof fn lemma_seq_max_bounds(ids: Seq<u32>)
    ensures
        forall|i: int| 0 <= i < ids.len() ==> #[trigger] ids[i] <= seq_max(ids),
        0 <= seq_max(ids),
        ids.len() == 0 || exists|i: int| 0 <= i < ids.len() && ids[i] == seq_max(ids),
    decreases ids.len(),
{
    if ids.len() > 0 {
        let rest = ids.drop_last();
        lemma_seq_max_bounds(rest);
        assert forall|i: int| 0 <= i < ids.len() implies #[trigger] ids[i] <= seq_max(ids) by {
            if i < ids.len() - 1 {
                assert(ids[i] == rest[i]);
            }
        }
        if ids.last() <= seq_max(rest) && rest.len() > 0 {
            let w = choose|i: int| 0 <= i < rest.len() && rest[i] == seq_max(rest);
            assert(ids[w] == rest[w]);
        } else if ids.last() <= seq_max(rest) {
            assert(seq_max(rest) == 0);
        }
    }
}

/// The first object number that is free after the objects numbered `ids`:
/// one past the largest, 1 when there is none.
pub fn next_object_id(ids: &Vec<u32>) -> (id: u32)
    requires
        forall|i: int| 0 <= i < ids.len() ==> #[trigger] ids[i] < u32::MAX,
    ensures
        id == seq_max(ids@) + 1,
        forall|i: int| 0 <= i < ids.len() ==> #[trigger] ids[i] < id,
{
    let mut max_id: u32 = 0;
    let mut i: usize = 0;
    proof {
        lemma_seq_max_bounds(ids@);
    }
    while i < ids.len()
        invariant
            i <= ids.len(),
            max_id == seq_max(ids@.take(i as int)),
            forall|j: int| 0 <= j < ids.len() ==> #[trigger] ids[j] < u32::MAX,
            max_id < u32::MAX,
        decreases ids.len() - i,
    {
        assert(ids@.take(i + 1).drop_last() =~= ids@.take(i as int));
        if ids[i] > max_id {
            max_id = ids[i];
        }
        i = i + 1;
    }
    assert(ids@.take(i as int) =~= ids@);
    max_id + 1
}

/// The page in half `second` of pair `k` of booklet `i` in the layout of a
/// document of `page_count` pages under `rule`.
pub open spec fn layout_page(page_count: int, rule: BindingRule, i: int, k: int, second: bool) -> int {
    let b = booklet_plan_spec(page_count, rule)[i];
    let pair = sheet_pairs_spec(
        page_count,
        slot_count(page_count, rule.has_cover, rule.keep_cover),
        b.2,
        b.3,
        rule,
    )[k];
    if second {
        pair.1
    } else {
        pair.0
    }
}

/// Whether booklet `i` of the layout exists and has a pair `k`.
pub open spec fn layout_has(page_count: int, rule: BindingRule, i: int, k: int) -> bool {
    let plan = booklet_plan_spec(page_count, rule);
    &&& 0 <= i < plan.len()
    &&& 0 <= k < (plan[i].3 - plan[i].2) / 2
}

/// The slot ranges `s` split the slots `[0, total)`: each range lies in
/// `[0, total)` and holds whole sheets, every slot lies in a range, and in
/// one only.
pub open spec fn splits_slots(s: Seq<(int, bool, int, int)>, total: int) -> bool {
    &&& forall|i: int|
        0 <= i < s.len() ==> 0 <= #[trigger] s[i].2 <= s[i].3 <= total && (s[i].3 - s[i].2) % 4 == 0
    &&& forall|q: int|
        #[trigger] within(q, 0, total) ==> exists|i: int|
            0 <= i < s.len() && #[trigger] within(q, s[i].2, s[i].3)
    &&& forall|q: int, i: int, j: int|
        0 <= i < s.len() && 0 <= j < s.len() && #[trigger] within(q, s[i].2, s[i].3) && #[trigger] within(
            q,
            s[j].2,
            s[j].3,
        ) ==> i == j
}

/// The booklets of a plan split the slots of the document.
proof fn lemma_plan_splits_slots(page_count: int, rule: BindingRule)
    requires
        booklet_plan_domain(page_count, rule),
    ensures
        splits_slots(
            booklet_plan_spec(page_count, rule),
            slot_count(page_count, rule.has_cover, rule.keep_cover),
        ),
{
    let s = booklet_plan_spec(page_count, rule);
    let total = slot_count(page_count, rule.has_cover, rule.keep_cover);
    lemma_plan_covers_document(page_count, rule);
    assert forall|i: int| 0 <= i < s.len() implies 0 <= #[trigger] s[i].2 <= s[i].3 <= total && (s[i].3
        - s[i].2) % 4 == 0 by {
        lemma_difference_of_quadruples(s[i].2, s[i].3);
    }
}

/// The difference of two multiples of four is one.
proof fn lemma_difference_of_quadruples(a: int, b: int)
    requires
        a % 4 == 0,
        b % 4 == 0,
    ensures
        (b - a) % 4 == 0,
{
    assert(a == (a / 4) * 4);
    assert(b == (b / 4) * 4);
    assert(b - a == (b / 4 - a / 4) * 4);
    vstd::arithmetic::div_mod::lemma_mod_multiples_basic(b / 4 - a / 4, 4);
}

/// The page in half `c` of pair `k` of the range `i` of `s`.
spec fn span_page(page_count: int, total: int, rule: BindingRule, s: Seq<(int, bool, int, int)>, i: int, k: int, c: bool) -> int {
    slot_page(
        page_count,
        total,
        rule.has_cover,
        rule.keep_cover,
        pair_slot(s[i].2, s[i].3, rule.binding_at_middle, k, c),
    )
}

/// Whether `s` has a range `i` with a pair `k`.
spec fn span_has(s: Seq<(int, bool, int, int)>, i: int, k: int) -> bool {
    &&& 0 <= i < s.len()
    &&& 0 <= k < (s[i].3 - s[i].2) / 2
}

/// Over any ranges that split the slots, the pairs show each printed page
/// exactly once and nothing else but blank halves.
proof fn lemma_spans_print_once(page_count: int, total: int, rule: BindingRule, s: Seq<(int, bool, int, int)>)
    requires
        0 <= page_count < BLANK_PAGE,
        rule.has_cover && !rule.keep_cover ==> page_count >= 2,
        total == slot_count(page_count, rule.has_cover, rule.keep_cover),
        splits_slots(s, total),
    ensures
        forall|i: int, k: int, c: bool|
            span_has(s, i, k) ==> (!in_document(
                page_count,
                #[trigger] span_page(page_count, total, rule, s, i, k, c),
            ) || printed_page(
                page_count,
                rule.has_cover,
                rule.keep_cover,
                span_page(page_count, total, rule, s, i, k, c),
            )),
        forall|p: int|
            #[trigger] printed_page(page_count, rule.has_cover, rule.keep_cover, p) ==> exists|
                i: int,
                k: int,
                c: bool,
            | span_has(s, i, k) && #[trigger] span_page(page_count, total, rule, s, i, k, c) == p,
        forall|i: int, k: int, c: bool, i2: int, k2: int, c2: bool|
            span_has(s, i, k) && span_has(s, i2, k2) && #[trigger] span_page(
                page_count,
                total,
                rule,
                s,
                i,
                k,
                c,
                ) == #[trigger] span_page(page_count, total, rule, s, i2, k2, c2) && in_document(
                page_count,
                span_page(page_count, total, rule, s, i, k, c),
            ) ==> i == i2 && k == k2 && c == c2,
{
    let hc = rule.has_cover;
    let kc = rule.keep_cover;
    let middle = rule.binding_at_middle;
    lemma_slots_hold_each_page_once(page_count, hc, kc);
    assert forall|i: int, k: int, c: bool| span_has(s, i, k) implies within(
        #[trigger] pair_slot(s[i].2, s[i].3, middle, k, c),
        s[i].2,
        s[i].3,
    ) by {
        lemma_pair_slots_cover(s[i].2, s[i].3, middle);
    }
    assert forall|i: int, k: int, c: bool| span_has(s, i, k) implies (!in_document(
        page_count,
        #[trigger] span_page(page_count, total, rule, s, i, k, c),
    ) || printed_page(page_count, hc, kc, span_page(page_count, total, rule, s, i, k, c))) by {
        let q = pair_slot(s[i].2, s[i].3, middle, k, c);
        assert(within(q, s[i].2, s[i].3));
        assert(0 <= q < total);
    }
    assert forall|p: int| #[trigger] printed_page(page_count, hc, kc, p) implies exists|
        i: int,
        k: int,
        c: bool,
    | span_has(s, i, k) && #[trigger] span_page(page_count, total, rule, s, i, k, c) == p by {
        let q = page_slot(page_count, total, hc, kc, p);
        assert(within(q, 0, total));
        let i = choose|i: int| 0 <= i < s.len() && #[trigger] within(q, s[i].2, s[i].3);
        lemma_pair_slots_cover(s[i].2, s[i].3, middle);
        assert(within(q, s[i].2, s[i].3));
        let (k, c) = choose|k: int, c: bool|
            0 <= k < (s[i].3 - s[i].2) / 2 && #[trigger] pair_slot(s[i].2, s[i].3, middle, k, c) == q;
        assert(span_has(s, i, k));
        assert(span_page(page_count, total, rule, s, i, k, c) == p);
    }
    assert forall|i: int, k: int, c: bool, i2: int, k2: int, c2: bool|
        span_has(s, i, k) && span_has(s, i2, k2) && #[trigger] span_page(
            page_count,
            total,
            rule,
            s,
            i,
            k,
            c,
        ) == #[trigger] span_page(page_count, total, rule, s, i2, k2, c2) && in_document(
            page_count,
            span_page(page_count, total, rule, s, i, k, c),
        ) implies i == i2 && k == k2 && c == c2 by {
        let qa = pair_slot(s[i].2, s[i].3, middle, k, c);
        let qb = pair_slot(s[i2].2, s[i2].3, middle, k2, c2);
        assert(within(qa, s[i].2, s[i].3));
        assert(within(qb, s[i2].2, s[i2].3));
        assert(qa == qb);
        assert(within(qa, s[i2].2, s[i2].3));
        assert(i == i2);
        lemma_pair_slots_cover(s[i].2, s[i].3, middle);
    }
}

/// In booklet `i` of a plan, the pairs that [`sheet_pairs_spec`] gives are
/// those of the booklet's slot range.
proof fn lemma_layout_is_span(page_count: int, rule: BindingRule, i: int, k: int, c: bool)
    requires
        layout_has(page_count, rule, i, k),
    ensures
        span_has(booklet_plan_spec(page_count, rule), i, k),
        layout_page(page_count, rule, i, k, c) == span_page(
            page_count,
            slot_count(page_count, rule.has_cover, rule.keep_cover),
            rule,
            booklet_plan_spec(page_count, rule),
            i,
            k,
            c,
        ),
{
}

/// Every page of the document that is to be printed is printed exactly once
/// over all booklets and sheet sides, and no other page of the document is
/// (every other half is printed blank): without covers and with kept covers every page, with dropped
/// covers every page but the first and the last. This holds in both the
/// middle and the edge binding.
pub proof fn lemma_every_page_printed_once(page_count: int, rule: BindingRule)
    requires
        booklet_plan_domain(page_count, rule),
    ensures
        forall|i: int, k: int, c: bool|
            layout_has(page_count, rule, i, k) ==> (!in_document(
                page_count,
                #[trigger] layout_page(page_count, rule, i, k, c),
            ) || printed_page(
                page_count,
                rule.has_cover,
                rule.keep_cover,
                layout_page(page_count, rule, i, k, c),
            )),
        forall|p: int|
            #[trigger] printed_page(page_count, rule.has_cover, rule.keep_cover, p) ==> exists|
                i: int,
                k: int,
                c: bool,
            | layout_has(page_count, rule, i, k) && #[trigger] layout_page(page_count, rule, i, k, c)
                == p,
        forall|i: int, k: int, c: bool, i2: int, k2: int, c2: bool|
            layout_has(page_count, rule, i, k) && layout_has(page_count, rule, i2, k2)
                && #[trigger] layout_page(page_count, rule, i, k, c) == #[trigger] layout_page(
                page_count,
                rule,
                i2,
                k2,
                c2,
            ) && in_document(page_count, layout_page(page_count, rule, i, k, c)) ==> i == i2 && k
                == k2 && c == c2,
{
    let total = slot_count(page_count, rule.has_cover, rule.keep_cover);
    let s = booklet_plan_spec(page_count, rule);
    lemma_plan_splits_slots(page_count, rule);
    lemma_spans_print_once(page_count, total, rule, s);
    assert forall|i: int, k: int, c: bool| layout_has(page_count, rule, i, k) implies span_has(s, i, k)
        && #[trigger] layout_page(page_count, rule, i, k, c) == span_page(
        page_count,
        total,
        rule,
        s,
        i,
        k,
        c,
    ) by {
        lemma_layout_is_span(page_count, rule, i, k, c);
    }
    assert forall|p: int| #[trigger] printed_page(page_count, rule.has_cover, rule.keep_cover, p) implies exists|
        i: int,
        k: int,
        c: bool,
    | layout_has(page_count, rule, i, k) && #[trigger] layout_page(page_count, rule, i, k, c) == p by {
        let (i, k, c) = choose|i: int, k: int, c: bool|
            span_has(s, i, k) && #[trigger] span_page(page_count, total, rule, s, i, k, c) == p;
        assert(layout_has(page_count, rule, i, k));
        assert(layout_page(page_count, rule, i, k, c) == p);
    }
}

/// The first booklet of a plan starts at the first slot, the last ends at
/// the last slot, and each holds at least one sheet.
proof fn lemma_plan_ends(page_count: int, rule: BindingRule)
    requires
        booklet_plan_domain(page_count, rule),
        slot_count(page_count, rule.has_cover, rule.keep_cover) > 0,
    ensures
        ({
            let s = booklet_plan_spec(page_count, rule);
            let last = s.len() - 1;
            &&& s.len() >= 1
            &&& s[0].2 == 0
            &&& s[last].3 == slot_count(page_count, rule.has_cover, rule.keep_cover)
            &&& s[0].3 - s[0].2 >= 4
            &&& s[last].3 - s[last].2 >= 4
            &&& (s[last].3 - s[last].2) % 4 == 0
        }),
{
    let s = booklet_plan_spec(page_count, rule);
    let total = slot_count(page_count, rule.has_cover, rule.keep_cover);
    let last = s.len() - 1;
    assert(s.len() >= 1 && s[0].2 == 0 && s[last].3 == total) by {
        lemma_plan_covers_document(page_count, rule);
    }
    assert(0 < s[0].3 - s[0].2 && (s[0].3 - s[0].2) % 4 == 0 && 0 < s[last].3 - s[last].2 && (s[last].3
        - s[last].2) % 4 == 0) by {
        lemma_plan_covers_document(page_count, rule);
        lemma_plan_splits_slots(page_count, rule);
    }
    lemma_whole_sheets_at_least_one(s[0].3 - s[0].2);
    lemma_whole_sheets_at_least_one(s[last].3 - s[last].2);
}

/// A positive multiple of four is at least four.
proof fn lemma_whole_sheets_at_least_one(len: int)
    requires
        0 < len,
        len % 4 == 0,
    ensures
        len >= 4,
{
}

/// Over ranges that start at the first slot and end at the last, kept covers
/// lie outside with blank pages behind them.
proof fn lemma_spans_kept_covers(page_count: int, total: int, rule: BindingRule, s: Seq<(int, bool, int, int)>)
    requires
        rule.has_cover,
        rule.keep_cover,
        2 <= page_count < BLANK_PAGE,
        total == slot_count(page_count, rule.has_cover, rule.keep_cover),
        s.len() >= 1,
        s[0].2 == 0,
        s[s.len() - 1].3 == total,
        s[0].3 - s[0].2 >= 4,
        s[s.len() - 1].3 - s[s.len() - 1].2 >= 4,
        (s[s.len() - 1].3 - s[s.len() - 1].2) % 4 == 0,
    ensures
        ({
            let last = s.len() - 1;
            let h = (s[last].3 - s[last].2) / 2;
            let back = if rule.binding_at_middle {
                0
            } else {
                h - 1
            };
            let before_back = if rule.binding_at_middle {
                1
            } else {
                h - 2
            };
            &&& span_has(s, 0, 0) && span_has(s, 0, 1)
            &&& span_page(page_count, total, rule, s, 0, 0, false) == 0
            &&& span_page(page_count, total, rule, s, 0, 1, false) == BLANK_PAGE
            &&& span_has(s, last, back) && span_has(s, last, before_back)
            &&& span_page(page_count, total, rule, s, last, back, true) == page_count - 1
            &&& span_page(page_count, total, rule, s, last, before_back, true) == BLANK_PAGE
        }),
{
    lemma_slots_hold_each_page_once(page_count, rule.has_cover, rule.keep_cover);
    let middle = rule.binding_at_middle;
    let last = s.len() - 1;
    let h = (s[last].3 - s[last].2) / 2;
    assert(s[last].3 - s[last].2 == 2 * h);
    assert(pair_slot(s[0].2, s[0].3, middle, 0, false) == 0);
    assert(pair_slot(s[0].2, s[0].3, middle, 1, false) == 1);
    if middle {
        assert(pair_slot(s[last].2, s[last].3, middle, 0, true) == total - 1);
        assert(pair_slot(s[last].2, s[last].3, middle, 1, true) == total - 2);
    } else {
        assert(pair_slot(s[last].2, s[last].3, middle, h - 1, true) == total - 1);
        assert(pair_slot(s[last].2, s[last].3, middle, h - 2, true) == total - 2);
    }
}

/// With kept covers, the front cover is the first page of the first booklet
/// with a blank page behind it, and the back cover is the last page of the
/// last booklet with a blank page before it, in both bindings.
pub proof fn lemma_kept_covers_outside(page_count: int, rule: BindingRule)
    requires
        booklet_plan_domain(page_count, rule),
        rule.has_cover,
        rule.keep_cover,
        page_count >= 2,
    ensures
        ({
            let plan = booklet_plan_spec(page_count, rule);
            let last = plan.len() - 1;
            let h = (plan[last].3 - plan[last].2) / 2;
            let back = if rule.binding_at_middle {
                0
            } else {
                h - 1
            };
            let before_back = if rule.binding_at_middle {
                1
            } else {
                h - 2
            };
            &&& plan.len() >= 1
            &&& layout_has(page_count, rule, 0, 0) && layout_has(page_count, rule, 0, 1)
            &&& layout_page(page_count, rule, 0, 0, false) == 0
            &&& layout_page(page_count, rule, 0, 1, false) == BLANK_PAGE
            &&& layout_has(page_count, rule, last, back) && layout_has(page_count, rule, last, before_back)
            &&& layout_page(page_count, rule, last, back, true) == page_count - 1
            &&& layout_page(page_count, rule, last, before_back, true) == BLANK_PAGE
        }),
{
    let s = booklet_plan_spec(page_count, rule);
    let total = slot_count(page_count, rule.has_cover, rule.keep_cover);
    let last = s.len() - 1;
    assert(total > 0) by {
        lemma_slots_hold_each_page_once(page_count, rule.has_cover, rule.keep_cover);
        assert(0 <= page_slot(page_count, total, true, true, page_count - 1) < total);
    }
    lemma_plan_ends(page_count, rule);
    lemma_spans_kept_covers(page_count, total, rule, s);
    let h = (s[last].3 - s[last].2) / 2;
    let back = if rule.binding_at_middle {
        0
    } else {
        h - 1
    };
    let before_back = if rule.binding_at_middle {
        1
    } else {
        h - 2
    };
    lemma_layout_is_span(page_count, rule, 0, 0, false);
    lemma_layout_is_span(page_count, rule, 0, 1, false);
    lemma_layout_is_span(page_count, rule, last, back, true);
    lemma_layout_is_span(page_count, rule, last, before_back, true);
}

/// `len / 2` is even when `len` is a multiple of four.
proof fn lemma_half_of_quadruple(len: int)
    requires
        len >= 0,
        len % 4 == 0,
    ensures
        (len / 2) % 2 == 0,
        len / 2 >= 0,
{
}

/// Every booklet of a plan has an even number of sheet sides, one pair for
/// every two of its slots: each sheet is printed on both sides.
pub proof fn lemma_plan_booklets_fill_sheets(page_count: int, rule: BindingRule, i: int)
    requires
        booklet_plan_domain(page_count, rule),
        0 <= i < booklet_plan_spec(page_count, rule).len(),
    ensures
        ({
            let b = booklet_plan_spec(page_count, rule)[i];
            let pairs = sheet_pairs_spec(
                page_count,
                slot_count(page_count, rule.has_cover, rule.keep_cover),
                b.2,
                b.3,
                rule,
            );
            &&& pairs.len() == (b.3 - b.2) / 2
            &&& pairs.len() % 2 == 0
        }),
{
    let s = booklet_plan_spec(page_count, rule);
    let total = slot_count(page_count, rule.has_cover, rule.keep_cover);
    lemma_plan_splits_slots(page_count, rule);
    assert(0 <= s[i].2 <= s[i].3 && (s[i].3 - s[i].2) % 4 == 0);
    lemma_half_of_quadruple(s[i].3 - s[i].2);
}

/// Without covers, the pairs of a booklet are its slot indices themselves,
/// whatever the page count, and shifting the booklet's range by `d` shifts
/// every pair by `d`: the layout of a booklet depends on its range only
/// relative to its start.
pub proof fn lemma_pairs_shift(
    page_count: int,
    total: int,
    other_count: int,
    other_total: int,
    start: int,
    end: int,
    d: int,
    rule: BindingRule,
)
    requires
        !rule.has_cover,
    ensures
        ({
            let shifted = sheet_pairs_spec(page_count, total, start + d, end + d, rule);
            let base = sheet_pairs_spec(other_count, other_total, start, end, rule);
            &&& shifted.len() == base.len()
            &&& forall|k: int|
                0 <= k < base.len() ==> #[trigger] base[k] == (
                    pair_slot(start, end, rule.binding_at_middle, k, false),
                    pair_slot(start, end, rule.binding_at_middle, k, true),
                )
            &&& forall|k: int|
                0 <= k < base.len() ==> #[trigger] shifted[k] == (base[k].0 + d, base[k].1 + d)
        }),
{
    let base = sheet_pairs_spec(other_count, other_total, start, end, rule);
    let shifted = sheet_pairs_spec(page_count, total, start + d, end + d, rule);
    assert forall|k: int| 0 <= k < base.len() implies #[trigger] base[k] == (
        pair_slot(start, end, rule.binding_at_middle, k, false),
        pair_slot(start, end, rule.binding_at_middle, k, true),
    ) && shifted[k] == (base[k].0 + d, base[k].1 + d) by {
        assert(((end + d) - (start + d)) / 2 == (end - start) / 2);
    }
}

/// The first booklet of a plan starts at slot 0 and the last ends at the
/// slot count; every booklet's range is ordered and starts at or past 0.
proof fn lemma_plan_bounds(page_count: int, rule: BindingRule)
    requires
        booklet_plan_domain(page_count, rule),
    ensures
        ({
            let s = booklet_plan_spec(page_count, rule);
            let total = slot_count(page_count, rule.has_cover, rule.keep_cover);
            &&& s.len() == 0 ==> total == 0
            &&& s.len() > 0 ==> s[s.len() - 1].3 == total
            &&& 0 <= total
            &&& forall|i: int| 0 <= i < s.len() ==> 0 <= #[trigger] s[i].2 <= s[i].3
        }),
{
    let s = booklet_plan_spec(page_count, rule);
    let total = slot_count(page_count, rule.has_cover, rule.keep_cover);
    assert((s.len() == 0 ==> total == 0) && (s.len() > 0 ==> s[s.len() - 1].3 == total) && 0 <= total)
        by {
        lemma_plan_covers_document(page_count, rule);
    }
    lemma_plan_splits_slots(page_count, rule);
}

/// The page pairs of `pairs` as `i32` indices.
pub open spec fn pairs_as_i32(pairs: Seq<(int, int)>) -> Seq<(i32, i32)> {
    pairs.map_values(|p: (int, int)| (p.0 as i32, p.1 as i32))
}

/// The sheet sides of booklet `i` of the layout of a document of
/// `page_count` pages under `rule`, in the order they are produced.
pub open spec fn booklet_sides_spec(page_count: int, rule: BindingRule, i: int) -> Seq<SheetSide> {
    let b = booklet_plan_spec(page_count, rule)[i];
    sheet_sides_spec(
        pairs_as_i32(
            sheet_pairs_spec(
                page_count,
                slot_count(page_count, rule.has_cover, rule.keep_cover),
                b.2,
                b.3,
                rule,
            ),
        ),
        rule.auto_double_side,
    )
}

/// The sheet sides of every booklet of a document of `page_count` pages
/// under `rule`, booklet by booklet: the plan of [`booklet_plan`], the pairs
/// of [`calc_page_on_sheet`] for each booklet over the document's slots, and
/// their arrangement by [`arrange_sheet_sides`].
pub fn document_sheet_sides(page_count: usize, rule: &BindingRule) -> (sides: Vec<Vec<SheetSide>>)
    requires
        booklet_plan_domain(page_count as int, *rule),
    ensures
        sides.len() == booklet_plan_spec(page_count as int, *rule).len(),
        forall|i: int|
            0 <= i < sides.len() ==> #[trigger] sides[i]@ == booklet_sides_spec(page_count as int, *rule, i),
{
    let ghost spec = booklet_plan_spec(page_count as int, *rule);
    let ghost total_spec = slot_count(page_count as int, rule.has_cover, rule.keep_cover);
    let plan = booklet_plan(page_count, rule);
    proof {
        lemma_plan_bounds(page_count as int, *rule);
        assert(plan@.len() == spec.len());
        assert forall|i: int| 0 <= i < plan.len() implies span_model(#[trigger] plan@[i]) == spec[i] by {
            assert(plan@.map_values(|s: BookletSpan| span_model(s))[i] == spec[i]);
        }
    }
    let total: i32 = if plan.len() == 0 {
        0
    } else {
        plan[plan.len() - 1].end_slot
    };
    let count: i32 = page_count as i32;
    let mut out: Vec<Vec<SheetSide>> = Vec::new();
    let mut i: usize = 0;
    while i < plan.len()
        invariant
            booklet_plan_domain(page_count as int, *rule),
            spec == booklet_plan_spec(page_count as int, *rule),
            total_spec == slot_count(page_count as int, rule.has_cover, rule.keep_cover),
            total == total_spec,
            count == page_count,
            plan.len() == spec.len(),
            forall|j: int| 0 <= j < plan.len() ==> span_model(#[trigger] plan@[j]) == spec[j],
            forall|j: int| 0 <= j < spec.len() ==> 0 <= #[trigger] spec[j].2 <= spec[j].3,
            i <= plan.len(),
            out.len() == i,
            forall|j: int|
                0 <= j < i ==> #[trigger] out[j]@ == booklet_sides_spec(page_count as int, *rule, j),
        decreases plan.len() - i,
    {
        assert(span_model(plan@[i as int]) == spec[i as int]);
        let start = plan[i].start_slot;
        let end = plan[i].end_slot;
        assert(start as int == spec[i as int].2 && end as int == spec[i as int].3);
        assert(0 <= spec[i as int].2 <= spec[i as int].3);
        let pairs = calc_page_on_sheet(count, total, start, end, rule);
        proof {
            let p = sheet_pairs_spec(page_count as int, total as int, start as int, end as int, *rule);
            assert(pairs@.map_values(|q: (i32, i32)| pair_model(q)) == p);
            assert(pairs@ =~= pairs_as_i32(p)) by {
                assert forall|k: int| 0 <= k < pairs@.len() implies #[trigger] pairs@[k] == pairs_as_i32(
                    p,
                )[k] by {
                    assert(pairs@.map_values(|q: (i32, i32)| pair_model(q))[k] == p[k]);
                }
            }
        }
        let sides = arrange_sheet_sides(&pairs, rule.auto_double_side);
        out.push(sides);
        i = i + 1;
    }
    out
}

} // verus!
