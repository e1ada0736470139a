use vstd::prelude::*;

verus! {

/// The line that character `p` of the text `s` stands on: the number of line
/// breaks before it.
pub open spec fn line_of(s: Seq<char>, p: int) -> int
    decreases p,
{
    if p <= 0 {
        0
    } else {
        line_of(s, p - 1) + if s[p - 1] == '\n' {
            1int
        } else {
            0int
        }
    }
}

/// The column of character `p` of the text `s`: the number of characters
/// between the last line break before it and it.
pub open spec fn col_of(s: Seq<char>, p: int) -> int
    decreases p,
{
    if p <= 0 {
        0
    } else if s[p - 1] == '\n' {
        0
    } else {
        col_of(s, p - 1) + 1
    }
}

/// Whether the text `s` holds a `*` at column `col` of line `line`.
pub open spec fn star_at(s: Seq<char>, col: int, line: int) -> bool {
    exists|p: int| 0 <= p < s.len() && s[p] == '*' && #[trigger] col_of(s, p) == col && line_of(s, p) == line
}

/// Every character takes one column of its line and a line break starts the
/// next line: the text starts at line 0, column 0; after a line break come
/// the next line and column 0; after any other character, whatever it is, the
/// same line and the next column.
pub proof fn law_line_col_step(s: Seq<char>, p: int)
    requires
        0 <= p < s.len(),
    ensures
        line_of(s, 0) == 0,
        col_of(s, 0) == 0,
        s[p] == '\n' ==> line_of(s, p + 1) == line_of(s, p) + 1 && col_of(s, p + 1) == 0,
        s[p] != '\n' ==> line_of(s, p + 1) == line_of(s, p) && col_of(s, p + 1) == col_of(s, p) + 1,
{
}

/// Lines and columns never run ahead of the position.
pub proof fn lemma_line_col_bounds(s: Seq<char>, p: int)
    requires
        0 <= p,
    ensures
        0 <= line_of(s, p) <= p,
        0 <= col_of(s, p) <= p,
    decreases p,
{
    if p > 0 {
        lemma_line_col_bounds(s, p - 1);
    }
}

} // verus!
