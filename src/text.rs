//! The grid as text: each number right-aligned in a field of four
//! characters, one line per row.
use vstd::prelude::*;
use vstd::string::*;

verus! {

/// The width of the field that holds one number.
pub const FIELD_WIDTH: usize = 4;

/// The character of the decimal digit `d`.
pub open spec fn digit_char(d: int) -> char {
    if d == 0 {
        '0'
    } else if d == 1 {
        '1'
    } else if d == 2 {
        '2'
    } else if d == 3 {
        '3'
    } else if d == 4 {
        '4'
    } else if d == 5 {
        '5'
    } else if d == 6 {
        '6'
    } else if d == 7 {
        '7'
    } else if d == 8 {
        '8'
    } else {
        '9'
    }
}

/// `v` written in decimal, without leading zeros.
pub open spec fn decimal(v: nat) -> Seq<char>
    decreases v,
{
    if v < 10 {
        seq![digit_char(v as int)]
    } else {
        decimal(v / 10).push(digit_char((v % 10) as int))
    }
}

/// `k` spaces, none when `k` is not positive.
pub open spec fn spaces(k: int) -> Seq<char> {
    Seq::new(if k > 0 { k as nat } else { 0 }, |_i: int| ' ')
}

/// `v` right-aligned in a field of `FIELD_WIDTH` characters; a number with
/// more digits than that takes as many characters as it has digits.
pub open spec fn field(v: nat) -> Seq<char> {
    spaces(FIELD_WIDTH - decimal(v).len()) + decimal(v)
}

/// The fields of a row, one after the other with nothing between them.
pub open spec fn row_text(row: Seq<usize>) -> Seq<char>
    decreases row.len(),
{
    if row.len() == 0 {
        Seq::empty()
    } else {
        row_text(row.drop_last()) + field(row.last() as nat)
    }
}

/// Each row's text followed by a line break.
pub open spec fn grid_text(rows: Seq<Seq<usize>>) -> Seq<char>
    decreases rows.len(),
{
    if rows.len() == 0 {
        Seq::empty()
    } else {
        grid_text(rows.drop_last()) + row_text(rows.last()) + seq!['\n']
    }
}

proof fn lemma_decimal_len(v: nat)
    ensures
        1 <= decimal(v).len() <= v + 1,
    decreases v,
{
    if v >= 10 {
        lemma_decimal_len(v / 10);
    }
}

fn digit_str(d: usize) -> (r: &'static str)
    requires
        d < 10,
    ensures
        r@ == seq![digit_char(d as int)],
{
    proof {
        reveal_strlit("0");
        reveal_strlit("1");
        reveal_strlit("2");
        reveal_strlit("3");
        reveal_strlit("4");
        reveal_strlit("5");
        reveal_strlit("6");
        reveal_strlit("7");
        reveal_strlit("8");
        reveal_strlit("9");
    }
    if d == 0 {
        "0"
    } else if d == 1 {
        "1"
    } else if d == 2 {
        "2"
    } else if d == 3 {
        "3"
    } else if d == 4 {
        "4"
    } else if d == 5 {
        "5"
    } else if d == 6 {
        "6"
    } else if d == 7 {
        "7"
    } else if d == 8 {
        "8"
    } else {
        "9"
    }
}

/// The number of decimal digits of `v`.
pub fn decimal_len(v: usize) -> (r: usize)
    ensures
        r == decimal(v as nat).len(),
    decreases v,
{
    proof {
        lemma_decimal_len(v as nat);
    }
    if v < 10 {
        1
    } else {
        proof {
            lemma_decimal_len((v / 10) as nat);
        }
        decimal_len(v / 10) + 1
    }
}

/// Appends the decimal digits of `v`.
pub fn push_decimal(out: &mut String, v: usize)
    ensures
        final(out)@ == old(out)@ + decimal(v as nat),
    decreases v,
{
    if v >= 10 {
        push_decimal(out, v / 10);
    }
    out.append(digit_str(v % 10));
    assert(final(out)@ =~= old(out)@ + decimal(v as nat));
}

/// Appends `v` right-aligned in its field.
pub fn push_field(out: &mut String, v: usize)
    ensures
        final(out)@ == old(out)@ + field(v as nat),
{
    let len = decimal_len(v);
    let mut k: usize = len;
    let ghost start = out@;
    while k < FIELD_WIDTH
        invariant
            len <= k,
            len < FIELD_WIDTH ==> k <= FIELD_WIDTH,
            len >= FIELD_WIDTH ==> k == len,
            len == decimal(v as nat).len(),
            out@ == start + spaces(k - len),
        decreases FIELD_WIDTH - k,
    {
        proof {
            reveal_strlit(" ");
        }
        out.append(" ");
        assert(out@ =~= start + spaces(k + 1 - len));
        k = k + 1;
    }
    if len < FIELD_WIDTH {
        assert(k == FIELD_WIDTH);
    } else {
        assert(spaces(k - len) =~= spaces(FIELD_WIDTH - len));
    }
    push_decimal(out, v);
    assert(final(out)@ =~= old(out)@ + field(v as nat));
}

} // verus!
