//! Names of the produced files and of the marks placed on the pages.
use vstd::prelude::*;

use crate::booklet::BindingRule;
use crate::paths::{path_file_prefix, path_file_prefix_of};

verus! {

/// The decimal digits.
pub open spec fn digit_chars() -> Seq<char> {
    seq!['0', '1', '2', '3', '4', '5', '6', '7', '8', '9']
}

/// The decimal writing of `n`, without leading zeros.
pub open spec fn decimal_text(n: nat) -> Seq<char>
    decreases n,
{
    if n < 10 {
        seq![digit_chars()[n as int]]
    } else {
        decimal_text(n / 10).push(digit_chars()[(n % 10) as int])
    }
}

/// The decimal writing of `n` on at least two digits (`{:02}`).
pub open spec fn two_digit_text(n: nat) -> Seq<char> {
    if n < 10 {
        seq!['0'] + decimal_text(n)
    } else {
        decimal_text(n)
    }
}

/// Calls `u32::to_string`. Claimed: the result is the decimal writing of `n`
/// without leading zeros, as `Display` for integers documents.
#[verifier::external_body]
fn decimal_string(n: u32) -> (text: String)
    ensures
        text@ == decimal_text(n as nat),
{
    n.to_string()
}

/// `n` written on at least two digits.
pub fn two_digit_string(n: u32) -> (text: String)
    ensures
        text@ == two_digit_text(n as nat),
{
    let digits = decimal_string(n);
    if n < 10 {
        let mut text = String::from_str("0");
        proof {
            reveal_strlit("0");
        }
        text.append(digits.as_str());
        text
    } else {
        digits
    }
}

/// The path of one output file: `<out_dir>/<prefix>_<NN><suffix>.pdf`, with
/// the booklet number on at least two digits.
pub open spec fn booklet_file_path(
    out_dir: Seq<char>,
    prefix: Seq<char>,
    booklet_num: nat,
    suffix: Seq<char>,
) -> Seq<char> {
    out_dir + seq!['/'] + prefix + seq!['_'] + two_digit_text(booklet_num) + suffix + seq![
        '.',
        'p',
        'd',
        'f',
    ]
}

/// The files written for one booklet: one file when the printer prints both
/// sides; else the fronts (printed second, marked `po2`) and then the backs
/// (printed first, marked `po1`).
pub open spec fn booklet_file_paths_spec(
    out_dir: Seq<char>,
    prefix: Seq<char>,
    booklet_num: nat,
    auto_double_side: bool,
) -> Seq<Seq<char>> {
    if auto_double_side {
        seq![booklet_file_path(out_dir, prefix, booklet_num, Seq::empty())]
    } else {
        seq![
            booklet_file_path(out_dir, prefix, booklet_num, seq!['_', 'p', 'o', '2']),
            booklet_file_path(out_dir, prefix, booklet_num, seq!['_', 'p', 'o', '1']),
        ]
    }
}

fn file_path(output_dir: &str, file_prefix: &str, number: &String, suffix: &str) -> (path: String)
    ensures
        path@ == output_dir@ + seq!['/'] + file_prefix@ + seq!['_'] + number@ + suffix@ + seq![
            '.',
            'p',
            'd',
            'f',
        ],
{
    let mut path = String::from_str(output_dir);
    path.append("/");
    path.append(file_prefix);
    path.append("_");
    path.append(number.as_str());
    path.append(suffix);
    path.append(".pdf");
    proof {
        reveal_strlit("/");
        reveal_strlit("_");
        reveal_strlit(".pdf");
    }
    path
}

/// The paths of the files written for booklet `booklet_num` of a document
/// whose file name starts with `file_prefix`, in the directory `output_dir`.
pub fn booklet_file_paths(
    output_dir: &str,
    file_prefix: &str,
    booklet_num: u32,
    auto_double_side: bool,
) -> (paths: Vec<String>)
    ensures
        paths@.map_values(|p: String| p@) == booklet_file_paths_spec(
            output_dir@,
            file_prefix@,
            booklet_num as nat,
            auto_double_side,
        ),
{
    let number = two_digit_string(booklet_num);
    let mut paths: Vec<String> = Vec::new();
    if auto_double_side {
        let p = file_path(output_dir, file_prefix, &number, "");
        proof {
            reveal_strlit("");
            assert(p@ =~= booklet_file_path(
                output_dir@,
                file_prefix@,
                booklet_num as nat,
                Seq::empty(),
            ));
        }
        paths.push(p);
    } else {
        let front = file_path(output_dir, file_prefix, &number, "_po2");
        let back = file_path(output_dir, file_prefix, &number, "_po1");
        proof {
            reveal_strlit("_po2");
            reveal_strlit("_po1");
            assert(front@ =~= booklet_file_path(
                output_dir@,
                file_prefix@,
                booklet_num as nat,
                seq!['_', 'p', 'o', '2'],
            ));
            assert(back@ =~= booklet_file_path(
                output_dir@,
                file_prefix@,
                booklet_num as nat,
                seq!['_', 'p', 'o', '1'],
            ));
        }
        paths.push(front);
        paths.push(back);
    }
    assert(paths@.map_values(|p: String| p@) =~= booklet_file_paths_spec(
        output_dir@,
        file_prefix@,
        booklet_num as nat,
        auto_double_side,
    ));
    paths
}

/// The paths of the files written for booklet `booklet_num` under `rule`,
/// named after the input file's prefix (its name up to the first dot); `None`
/// when the input path has no file name.
pub fn booklet_output_paths(rule: &BindingRule, booklet_num: u32) -> (paths: Option<Vec<String>>)
    ensures
        paths is Some <==> path_file_prefix_of(rule.input_path@) is Some,
        paths matches Some(v) ==> v@.map_values(|p: String| p@) == booklet_file_paths_spec(
            rule.output_dir@,
            path_file_prefix_of(rule.input_path@)->0,
            booklet_num as nat,
            rule.auto_double_side,
        ),
{
    match path_file_prefix(rule.input_path.as_str()) {
        Some(prefix) => Some(
            booklet_file_paths(
                rule.output_dir.as_str(),
                prefix.as_str(),
                booklet_num,
                rule.auto_double_side,
            ),
        ),
        None => None,
    }
}

/// The resource name under which the form of page `page_num` is placed on a
/// sheet side: `_bkb_op_<page_num>`.
pub fn form_xobject_name(page_num: u32) -> (name: String)
    ensures
        name@ == seq!['_', 'b', 'k', 'b', '_', 'o', 'p', '_'] + decimal_text(page_num as nat),
{
    let digits = decimal_string(page_num);
    let mut name = String::from_str("_bkb_op_");
    name.append(digits.as_str());
    proof {
        reveal_strlit("_bkb_op_");
    }
    name
}

/// The booklet number printed in the fold of each sheet front: `^_<n>_^`.
pub fn booklet_mark(booklet_num: u32) -> (mark: String)
    ensures
        mark@ == seq!['^', '_'] + decimal_text(booklet_num as nat) + seq!['_', '^'],
{
    let digits = decimal_string(booklet_num);
    let mut mark = String::from_str("^_");
    mark.append(digits.as_str());
    mark.append("_^");
    proof {
        reveal_strlit("^_");
        reveal_strlit("_^");
    }
    mark
}

} // verus!
