//! CSV text of a report: a header `Line,Count`, then one `<line>,<count>`
//! record per row, each ended by a newline. Fields are not quoted, so a line
//! that holds a comma makes its record ambiguous.
use crate::table::{rows_of, DataCount};
use vstd::prelude::*;

verus! {

/// The decimal digit for `d`, which is below 10.
pub open spec fn digit(d: nat) -> char {
    if d == 0 {
        '0'
    } else if d == 1 {
        '1'
    } else if d == 2 {
        '2'
    } else if d == 3 {
        '3'
    } else if d == 4 {
        '4'
    } else if d == 5 {
        '5'
    } else if d == 6 {
        '6'
    } else if d == 7 {
        '7'
    } else if d == 8 {
        '8'
    } else {
        '9'
    }
}

/// `n` in decimal, without leading zeros.
pub open spec fn decimal(n: nat) -> Seq<char>
    decreases n,
{
    if n < 10 {
        seq![digit(n)]
    } else {
        decimal(n / 10).push(digit(n % 10))
    }
}

/// The header record.
pub open spec fn header_text() -> Seq<char> {
    seq!['L', 'i', 'n', 'e', ',', 'C', 'o', 'u', 'n', 't']
}

/// The record of one row: the line, a comma, the count.
pub open spec fn row_text(e: (Seq<char>, nat)) -> Seq<char> {
    e.0 + seq![','] + decimal(e.1)
}

/// The records of `r`, each followed by a newline.
pub open spec fn body_text(r: Seq<(Seq<char>, nat)>) -> Seq<char>
    decreases r.len(),
{
    if r.len() == 0 {
        Seq::empty()
    } else {
        body_text(r.drop_last()) + row_text(r.last()) + seq!['\n']
    }
}

/// The whole CSV text of report `r`.
pub open spec fn csv_text(r: Seq<(Seq<char>, nat)>) -> Seq<char> {
    header_text() + seq!['\n'] + body_text(r)
}

fn digit_str(d: usize) -> (r: &'static str)
    requires
        d < 10,
    ensures
        r@ == seq![digit(d as nat)],
{
    proof {
        reveal_strlit("0");
        reveal_strlit("1");
        reveal_strlit("2");
        reveal_strlit("3");
        reveal_strlit("4");
        reveal_strlit("5");
        reveal_strlit("6");
        reveal_strlit("7");
        reveal_strlit("8");
        reveal_strlit("9");
    }
    let r = match d {
        0 => "0",
        1 => "1",
        2 => "2",
        3 => "3",
        4 => "4",
        5 => "5",
        6 => "6",
        7 => "7",
        8 => "8",
        _ => "9",
    };
    assert(r@ =~= seq![digit(d as nat)]);
    r
}

/// `n` written in decimal.
pub fn decimal_string(n: usize) -> (r: String)
    ensures
        r@ == decimal(n as nat),
    decreases n,
{
    if n < 10 {
        String::from_str(digit_str(n))
    } else {
        let mut s = decimal_string(n / 10);
        s.append(digit_str(n % 10));
        s
    }
}

/// The header record, `Line,Count`.
pub fn csv_header() -> (r: String)
    ensures
        r@ == header_text(),
{
    proof {
        reveal_strlit("Line,Count");
    }
    let r = String::from_str("Line,Count");
    assert(r@ =~= header_text());
    r
}

/// The record of one row, `<line>,<count>`.
pub fn csv_row(row: &DataCount) -> (r: String)
    ensures
        r@ == row_text(row@),
{
    proof {
        reveal_strlit(",");
    }
    let mut r = row.line.clone();
    r.append(",");
    let digits = decimal_string(row.count);
    r.append(digits.as_str());
    assert(r@ =~= row_text(row@));
    r
}

/// The CSV text of `rows`: the header and one record per row, each line
/// ended by a newline.
pub fn render_csv(rows: &Vec<DataCount>) -> (r: String)
    ensures
        r@ == csv_text(rows_of(rows@)),
{
    proof {
        reveal_strlit("\n");
    }
    let mut r = csv_header();
    r.append("\n");
    let mut i: usize = 0;
    while i < rows.len()
        invariant
            i <= rows@.len(),
            "\n"@ == seq!['\n'],
            r@ == header_text() + seq!['\n'] + body_text(rows_of(rows@).take(i as int)),
        decreases rows@.len() - i,
    {
        let rec = csv_row(&rows[i]);
        r.append(rec.as_str());
        r.append("\n");
        proof {
            let t = rows_of(rows@).take(i as int + 1);
            assert(t.drop_last() =~= rows_of(rows@).take(i as int));
            assert(t.last() == rows@[i as int]@);
            assert(r@ =~= header_text() + seq!['\n'] + body_text(t));
        }
        i = i + 1;
    }
    assert(rows_of(rows@).take(i as int) =~= rows_of(rows@));
    r
}

} // verus!
