//! The task list: which rows a start request runs, and the binding rule of a
//! row.
use vstd::prelude::*;

use crate::booklet::BindingRule;

verus! {

/// The indices of the enabled rows, in order.
pub open spec fn enabled_rows(enabled: Seq<bool>) -> Seq<usize>
    decreases enabled.len(),
{
    if enabled.len() == 0 {
        Seq::empty()
    } else {
        let rest = enabled_rows(enabled.drop_last());
        if enabled.last() {
            rest.push((enabled.len() - 1) as usize)
        } else {
            rest
        }
    }
}

/// The rows that a start request for row `idx` runs, for a list whose rows
/// are enabled as `enabled` says: none when the list is empty or `idx` is past
/// its end; every enabled row when `idx` is negative; else row `idx` alone,
/// enabled or not, when it exists.
pub open spec fn tasks_to_start_spec(idx: int, enabled: Seq<bool>) -> Seq<usize> {
    if idx > enabled.len() || enabled.len() == 0 {
        Seq::empty()
    } else if idx < 0 {
        enabled_rows(enabled)
    } else if idx < enabled.len() {
        seq![idx as usize]
    } else {
        Seq::empty()
    }
}

/// The enabled rows come each once, in increasing order: every row listed is
/// enabled and every enabled row is listed.
proof fn lemma_enabled_rows(enabled: Seq<bool>)
    requires
        enabled.len() <= usize::MAX,
    ensures
        ({
            let rows = enabled_rows(enabled);
            &&& forall|i: int| 0 <= i < rows.len() ==> #[trigger] rows[i] < enabled.len() && enabled[rows[i] as int]
            &&& forall|i: int, j: int| 0 <= i < j < rows.len() ==> #[trigger] rows[i] < #[trigger] rows[j]
            &&& forall|r: int| 0 <= r < enabled.len() && #[trigger] enabled[r] ==> rows.contains(r as usize)
        }),
    decreases enabled.len(),
{
    if enabled.len() > 0 {
        let d = enabled.drop_last();
        lemma_enabled_rows(d);
        let rest = enabled_rows(d);
        let rows = enabled_rows(enabled);
        let n = enabled.len() - 1;
        assert forall|r: int| 0 <= r < enabled.len() && #[trigger] enabled[r] implies rows.contains(
            r as usize,
        ) by {
            if r < n {
                assert(d[r] == enabled[r]);
                let w = choose|w: int| 0 <= w < rest.len() && rest[w] == r as usize;
                assert(rows[w] == r as usize);
            } else {
                assert(rows[rows.len() - 1] == r as usize);
            }
        }
        assert forall|i: int| 0 <= i < rows.len() implies #[trigger] rows[i] < enabled.len() && enabled[rows[i] as int] by {
            if i < rest.len() {
                assert(rows[i] == rest[i]);
                assert(d[rest[i] as int] == enabled[rest[i] as int]);
            }
        }
    }
}

/// A start request for every row (a negative `idx`) runs the enabled rows
/// and only those, each once, in the order of the list.
pub proof fn lemma_start_all_enabled(idx: int, enabled: Seq<bool>)
    requires
        idx < 0,
        enabled.len() <= usize::MAX,
    ensures
        ({
            let rows = tasks_to_start_spec(idx, enabled);
            &&& forall|i: int| 0 <= i < rows.len() ==> #[trigger] rows[i] < enabled.len() && enabled[rows[i] as int]
            &&& forall|i: int, j: int| 0 <= i < j < rows.len() ==> #[trigger] rows[i] < #[trigger] rows[j]
            &&& forall|r: int| 0 <= r < enabled.len() && #[trigger] enabled[r] ==> rows.contains(r as usize)
        }),
{
    lemma_enabled_rows(enabled);
}

/// The rows to run for a start request on row `idx` (a negative `idx` asks
/// for every enabled row).
pub fn tasks_to_start(idx: i32, enabled: &Vec<bool>) -> (rows: Vec<usize>)
    ensures
        rows@ == tasks_to_start_spec(idx as int, enabled@),
{
    let count = enabled.len();
    let mut rows: Vec<usize> = Vec::new();
    if (idx >= 0 && idx as usize > count) || count == 0 {
        return rows;
    }
    if idx < 0 {
        let mut i: usize = 0;
        while i < count
            invariant
                count == enabled.len(),
                i <= count,
                rows@ == enabled_rows(enabled@.take(i as int)),
            decreases count - i,
        {
            assert(enabled@.take(i + 1).drop_last() =~= enabled@.take(i as int));
            if enabled[i] {
                rows.push(i);
            }
            i = i + 1;
        }
        assert(enabled@.take(count as int) =~= enabled@);
        rows
    } else if (idx as usize) < count {
        rows.push(idx as usize);
        rows
    } else {
        rows
    }
}

/// The row that choosing a new input file for row `idx` edits, in a list of
/// `row_count` rows: the row itself when it exists, else none.
pub fn row_to_change(idx: i32, row_count: usize) -> (row: Option<usize>)
    ensures
        row == (if 0 <= idx < row_count {
            Some(idx as usize)
        } else {
            None::<usize>
        }),
{
    if (idx >= 0 && idx as usize > row_count) || row_count == 0 {
        None
    } else if idx >= 0 && (idx as usize) < row_count {
        Some(idx as usize)
    } else {
        None
    }
}

/// The binding rule of a row of the task list, or `None` when the row has no
/// input file or no output folder. The number of sheets is taken as `usize`
/// (a negative number wraps around).
pub fn task_binding_rule(
    src_path: &str,
    out_dir: &str,
    has_cover: bool,
    keep_cover: bool,
    auto_double_side: bool,
    sheet_per_booklet: i32,
    binding_at_middle: bool,
) -> (rule: Option<BindingRule>)
    ensures
        rule is None <==> (src_path@.len() == 0 || out_dir@.len() == 0),
        rule matches Some(r) ==> {
            &&& r.input_path@ == src_path@
            &&& r.output_dir@ == out_dir@
            &&& r.sheets_per_booklet == sheet_per_booklet as usize
            &&& r.has_cover == has_cover
            &&& r.keep_cover == keep_cover
            &&& r.auto_double_side == auto_double_side
            &&& r.binding_at_middle == binding_at_middle
        },
{
    if src_path.is_empty() || out_dir.is_empty() {
        return None;
    }
    Some(
        BindingRule {
            has_cover,
            keep_cover,
            auto_double_side,
            sheets_per_booklet: sheet_per_booklet as usize,
            input_path: String::from_str(src_path),
            output_dir: String::from_str(out_dir),
            binding_at_middle,
        },
    )
}

} // verus!
