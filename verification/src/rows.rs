//! Rendering of route results as rows of a table.
//!
//! The first column of a row carries the row's key (its 1-based sequence
//! number), the middle columns carry the stop identifiers of the route in
//! order, and the last column carries the route's accumulated distance,
//! printed with one decimal digit.  The header names the columns `KEY`,
//! `STATE_1` .. `STATE_{k-2}`, `DISTANCE`.

use vstd::prelude::*;

verus! {

/// The character for a single decimal digit.
pub open spec fn digit_char(d: nat) -> char {
    if d == 0 {
        '0'
    } else if d == 1 {
        '1'
    } else if d == 2 {
        '2'
    } else if d == 3 {
        '3'
    } else if d == 4 {
        '4'
    } else if d == 5 {
        '5'
    } else if d == 6 {
        '6'
    } else if d == 7 {
        '7'
    } else if d == 8 {
        '8'
    } else {
        '9'
    }
}

/// The decimal numeral of `n`, most significant digit first.
pub open spec fn decimal_chars(n: nat) -> Seq<char>
    decreases n,
{
    if n < 10 {
        seq![digit_char(n)]
    } else {
        decimal_chars(n / 10).push(digit_char(n % 10))
    }
}

/// A quantity of tenths printed with one decimal digit: the whole part,
/// a dot, and the remaining tenth.
pub open spec fn tenths_chars(t: nat) -> Seq<char> {
    decimal_chars(t / 10) + seq!['.'] + seq![digit_char(t % 10)]
}

/// A one-character string slice for the digit `d`.
fn digit_str(d: u64) -> (r: &'static str)
    requires
        d < 10,
    ensures
        r@ == seq![digit_char(d as nat)],
{
    proof {
        reveal_strlit("0");
        reveal_strlit("1");
        reveal_strlit("2");
        reveal_strlit("3");
        reveal_strlit("4");
        reveal_strlit("5");
        reveal_strlit("6");
        reveal_strlit("7");
        reveal_strlit("8");
        reveal_strlit("9");
    }
    let r = if d == 0 {
        "0"
    } else if d == 1 {
        "1"
    } else if d == 2 {
        "2"
    } else if d == 3 {
        "3"
    } else if d == 4 {
        "4"
    } else if d == 5 {
        "5"
    } else if d == 6 {
        "6"
    } else if d == 7 {
        "7"
    } else if d == 8 {
        "8"
    } else {
        "9"
    };
    proof {
        assert(r@ =~= seq![digit_char(d as nat)]);
    }
    r
}

/// The decimal numeral of `n` as an owned string.
pub fn u64_to_string(n: u64) -> (s: String)
    ensures
        s@ == decimal_chars(n as nat),
    decreases n,
{
    if n < 10 {
        digit_str(n).to_owned()
    } else {
        let mut s = u64_to_string(n / 10);
        s.append(digit_str(n % 10));
        proof {
            assert(s@ =~= decimal_chars(n as nat));
        }
        s
    }
}

/// A quantity of tenths printed with one decimal digit, e.g. `1234` as
/// `"123.4"`.
pub fn format_tenths(t: u64) -> (s: String)
    ensures
        s@ == tenths_chars(t as nat),
{
    let mut s = u64_to_string(t / 10);
    s.append(".");
    s.append(digit_str(t % 10));
    proof {
        reveal_strlit(".");
        assert(s@ =~= tenths_chars(t as nat));
    }
    s
}

/// The text of column `i` in a header of `k` columns.
pub open spec fn title_cell(i: int, k: int) -> Seq<char> {
    if i == 0 {
        "KEY"@
    } else if i == k - 1 {
        "DISTANCE"@
    } else {
        "STATE_"@ + decimal_chars(i as nat)
    }
}

/// The column header of a table whose rows have `vec_len` cells: `KEY`
/// first, `DISTANCE` last, and `STATE_1` .. `STATE_{vec_len - 2}` in
/// between.  Its length equals `vec_len`.
pub fn title(vec_len: usize) -> (header: Vec<String>)
    ensures
        header@.len() == vec_len,
        forall|i: int| 0 <= i < vec_len ==> #[trigger] header@[i]@ == title_cell(i, vec_len as int),
{
    let mut header: Vec<String> = Vec::new();
    let mut i: usize = 0;
    while i < vec_len
        invariant
            i <= vec_len,
            header@.len() == i,
            forall|j: int| 0 <= j < i ==> #[trigger] header@[j]@ == title_cell(j, vec_len as int),
        decreases vec_len - i,
    {
        if i == 0 {
            header.push("KEY".to_owned());
        } else if i == vec_len - 1 {
            header.push("DISTANCE".to_owned());
        } else {
            let mut cell = "STATE_".to_owned();
            let num = u64_to_string(i as u64);
            cell.append(num.as_str());
            header.push(cell);
        }
        i = i + 1;
    }
    header
}

/// One data row: the row number, then the stops of the route in order,
/// then the accumulated distance in tenths printed with one decimal
/// digit.  Its length equals the route's length plus two.
pub fn vec_row(row_num: usize, distance_tenths: u64, route: Vec<String>) -> (row: Vec<String>)
    ensures
        row@.len() == route@.len() + 2,
        row@[0]@ == decimal_chars(row_num as nat),
        forall|i: int| 0 <= i < route@.len() ==> row@[i + 1] == route@[i],
        row@[row@.len() - 1]@ == tenths_chars(distance_tenths as nat),
{
    let mut row: Vec<String> = Vec::new();
    row.push(u64_to_string(row_num as u64));
    let mut rest = route;
    row.append(&mut rest);
    row.push(format_tenths(distance_tenths));
    row
}

} // verus!
